//! The index as a whole: a name pool, an arena of records and the name
//! index over them, kept in step.
//!
//! There is one writer. Each change of the tree is one call of `insert` or
//! `remove`, and after each the name index lists exactly the records of the
//! arena, each under its name.

use crate::arena::{inserted, removed, NodeArena, NodeIndex};
use crate::index_set::IndexSet;
use crate::lex::{compare, Rank};
use crate::name_index::NameIndex;
use crate::namepool::NamePool;
use crate::node::{FileType, NodeMetadata, NodeRecord};
use crate::persist::PersistentStorage;
use crate::search::{is_start, lemma_append_keeps_names, lemma_round_trip};
use crate::span::{guard_free, is_guard_free, span_bytes, GUARD};
use vstd::prelude::*;
use vstd::string::StringSliceAdditionalSpecFns;
use vstd::utf8::encode_utf8;

verus! {

/// Whether a persisted name index has an entry for `name`.
pub open spec fn has_name(name_index: Seq<(String, Vec<NodeIndex>)>, name: Seq<u8>) -> bool {
    exists|k: int| 0 <= k < name_index.len() && encode_utf8((#[trigger] name_index[k]).0@) == name
}

/// Why a snapshot cannot be taken for an index.
#[derive(Clone, Copy, Debug, PartialEq, Eq, Structural)]
pub enum RestoreError {
    /// A name holds the guard byte.
    BadName,
    /// The name index lists an index under which the arena holds no record.
    UnknownIndex,
    /// The name index lists an index twice.
    ListedTwice,
    /// The arena holds a record that the name index does not list.
    Unnamed,
}

/// Whether `j` is a position in the list of entry `k` of a persisted name
/// index.
pub open spec fn is_place(name_index: Seq<(String, Vec<NodeIndex>)>, k: int, j: int) -> bool {
    0 <= k < name_index.len() && 0 <= j < name_index[k].1@.len()
}

/// Whether place `(k, j)` comes before place `(k_end, j_end)`.
pub open spec fn comes_before(k: int, j: int, k_end: int, j_end: int) -> bool {
    k < k_end || (k == k_end && j < j_end)
}

/// Whether a place before `(k_end, j_end)` lists `index`.
pub open spec fn listed_before(
    name_index: Seq<(String, Vec<NodeIndex>)>,
    k_end: int,
    j_end: int,
    index: NodeIndex,
) -> bool {
    exists|k: int, j: int|
        is_place(name_index, k, j) && comes_before(k, j, k_end, j_end) && #[trigger] name_index[k].1@[j]
            == index
}

/// Whether the name index lists `index`.
pub open spec fn listed_in(name_index: Seq<(String, Vec<NodeIndex>)>, index: NodeIndex) -> bool {
    listed_before(name_index, name_index.len() as int, 0, index)
}

/// Whether the places before `(k_end, j_end)` list no index twice.
pub open spec fn distinct_before(
    name_index: Seq<(String, Vec<NodeIndex>)>,
    k_end: int,
    j_end: int,
) -> bool {
    forall|k: int, j: int, k2: int, j2: int|
        #![trigger name_index[k].1@[j], name_index[k2].1@[j2]]
        is_place(name_index, k, j) && comes_before(k, j, k_end, j_end) && is_place(
            name_index,
            k2,
            j2,
        ) && comes_before(k2, j2, k_end, j_end) && (k != k2 || j != j2) ==> name_index[k].1@[j]
            != name_index[k2].1@[j2]
}

/// Whether a snapshot is one of an index: its names hold no guard byte,
/// and its name index lists the records of its arena, each of them once.
pub open spec fn consistent(
    slab: Map<NodeIndex, NodeRecord>,
    name_index: Seq<(String, Vec<NodeIndex>)>,
) -> bool {
    &&& forall|k: int|
        0 <= k < name_index.len() ==> guard_free(encode_utf8((#[trigger] name_index[k]).0@))
    &&& forall|k: int, j: int|
        is_place(name_index, k, j) ==> slab.contains_key(#[trigger] name_index[k].1@[j])
    &&& distinct_before(name_index, name_index.len() as int, 0)
    &&& forall|i: NodeIndex| slab.contains_key(i) ==> listed_in(name_index, i)
}

/// Whether the names of the entries below `k_end` hold no guard byte.
pub open spec fn names_sound_below(name_index: Seq<(String, Vec<NodeIndex>)>, k_end: int) -> bool {
    forall|k: int|
        0 <= k < name_index.len() && k < k_end ==> guard_free(
            encode_utf8((#[trigger] name_index[k]).0@),
        )
}

/// Whether the places before `(k_end, j_end)` list records of the arena, and
/// none of them twice.
pub open spec fn places_sound_before(
    slab: Map<NodeIndex, NodeRecord>,
    name_index: Seq<(String, Vec<NodeIndex>)>,
    k_end: int,
    j_end: int,
) -> bool {
    &&& forall|k: int, j: int|
        is_place(name_index, k, j) && comes_before(k, j, k_end, j_end) ==> slab.contains_key(
            #[trigger] name_index[k].1@[j],
        )
    &&& distinct_before(name_index, k_end, j_end)
}

/// Whether `error` names the first defect of a snapshot. The snapshot is
/// read entry by entry, the name of an entry before its list, and the list
/// from its first index to its last; a record without a name is looked
/// for only when nothing else is wrong.
pub open spec fn is_first_defect(
    slab: Map<NodeIndex, NodeRecord>,
    name_index: Seq<(String, Vec<NodeIndex>)>,
    error: RestoreError,
) -> bool {
    match error {
        RestoreError::BadName => exists|k: int|
            0 <= k < name_index.len() && !guard_free(encode_utf8((#[trigger] name_index[k]).0@))
                && names_sound_below(name_index, k) && places_sound_before(
                slab,
                name_index,
                k,
                0,
            ),
        RestoreError::UnknownIndex => exists|k: int, j: int|
            is_place(name_index, k, j) && !slab.contains_key(#[trigger] name_index[k].1@[j])
                && names_sound_below(name_index, k + 1) && places_sound_before(
                slab,
                name_index,
                k,
                j,
            ),
        RestoreError::ListedTwice => exists|k: int, j: int|
            is_place(name_index, k, j) && slab.contains_key(#[trigger] name_index[k].1@[j])
                && listed_before(name_index, k, j, name_index[k].1@[j]) && names_sound_below(
                name_index,
                k + 1,
            ) && places_sound_before(slab, name_index, k, j),
        RestoreError::Unnamed => names_sound_below(name_index, name_index.len() as int)
            && places_sound_before(slab, name_index, name_index.len() as int, 0) && exists|
            i: NodeIndex,
        | slab.contains_key(i) && !listed_in(name_index, i),
    }
}

/// Whether two records differ in nothing but the offset of the name.
pub open spec fn same_but_name(a: NodeRecord, b: NodeRecord) -> bool {
    a.parent == b.parent && a.file_type == b.file_type && a.metadata == b.metadata
}

/// What holds of the slots while the names of a snapshot are given back to
/// its records, for the places before `(k_end, j_end)`.
spec fn renamed(
    slab: Map<NodeIndex, NodeRecord>,
    name_index: Seq<(String, Vec<NodeIndex>)>,
    pool: Seq<u8>,
    slots: Seq<Option<NodeRecord>>,
    named: Seq<bool>,
    k_end: int,
    j_end: int,
) -> bool {
    &&& named.len() == slots.len()
    &&& forall|i: usize| slab.contains_key(i) <==> i < slots.len() && (#[trigger] slots[i as int]) is Some
    &&& forall|i: usize|
        slab.contains_key(i) ==> same_but_name((#[trigger] slots[i as int])->0, slab[i])
    &&& forall|i: usize|
        i < named.len() ==> (#[trigger] named[i as int] <==> listed_before(
            name_index,
            k_end,
            j_end,
            i,
        ))
    &&& forall|k: int, j: int|
        is_place(name_index, k, j) && comes_before(k, j, k_end, j_end) ==> {
            let i = #[trigger] name_index[k].1@[j];
            &&& slab.contains_key(i)
            &&& is_start(pool, slots[i as int]->0.name as int)
            &&& span_bytes(pool, slots[i as int]->0.name as int) == encode_utf8(name_index[k].0@)
        }
    &&& distinct_before(name_index, k_end, j_end)
    &&& forall|k: int|
        0 <= k < name_index.len() && k < k_end ==> guard_free(
            encode_utf8((#[trigger] name_index[k]).0@),
        )
}

/// The names of a path, from the root down, as bytes.
pub open spec fn path_names(path: Seq<String>) -> Seq<Seq<u8>> {
    Seq::new(path.len(), |i: int| encode_utf8(path[i]@))
}

/// A name pool, an arena and a name index that agree with one another.
pub struct SearchCache {
    pool: NamePool,
    arena: NodeArena<NodeRecord>,
    index: NameIndex,
}

impl SearchCache {
    /// The records by their indices.
    pub closed spec fn records(&self) -> Map<NodeIndex, NodeRecord> {
        self.arena@
    }

    /// The bytes of the name pool.
    pub closed spec fn names(&self) -> Seq<u8> {
        self.pool@
    }

    /// The name index as a map from names to sets of indices.
    pub closed spec fn by_name(&self) -> Map<Seq<u8>, Set<NodeIndex>> {
        self.index.view_in(self.pool@)
    }

    /// The name of the record under `index`.
    pub open spec fn name_at(&self, index: NodeIndex) -> Seq<u8> {
        span_bytes(self.names(), self.records()[index].name as int)
    }

    /// The indices that the name index lists under `name`.
    pub open spec fn listed(&self, name: Seq<u8>) -> Set<NodeIndex> {
        if self.by_name().contains_key(name) {
            self.by_name()[name]
        } else {
            Set::empty()
        }
    }

    /// Whether the name index lists `index` under `name`.
    pub open spec fn lists(&self, name: Seq<u8>, index: NodeIndex) -> bool {
        self.by_name().contains_key(name) && self.by_name()[name].contains(index)
    }

    /// Whether the record under `index` lies at `path`: it bears the last
    /// name of the path, and its parent lies at the path before that name.
    /// At a path of one name lies a record without a parent.
    pub open spec fn lies_at(&self, index: NodeIndex, path: Seq<Seq<u8>>) -> bool
        decreases path.len(),
    {
        &&& path.len() > 0
        &&& self.records().contains_key(index)
        &&& self.name_at(index) == path.last()
        &&& match self.records()[index].parent {
            None => path.len() == 1,
            Some(parent) => path.len() > 1 && self.lies_at(parent, path.drop_last()),
        }
    }

    /// Whether the record under `index` is the record under `top` or lies
    /// below it: following the parents from `index`, for `steps` steps at
    /// most, leads to `top`.
    pub open spec fn descends(&self, index: NodeIndex, top: NodeIndex, steps: nat) -> bool
        decreases steps,
    {
        &&& self.records().contains_key(index)
        &&& (index == top || (steps > 0 && self.records()[index].parent is Some
            && self.descends(self.records()[index].parent->0, top, (steps - 1) as nat)))
    }

    /// Whether `index` is the least index of a record that lies at `path`.
    pub open spec fn is_first_at(&self, index: NodeIndex, path: Seq<Seq<u8>>) -> bool {
        self.lies_at(index, path) && forall|j: NodeIndex| j < index ==> !self.lies_at(j, path)
    }

    /// Whether no record lies at `path`.
    pub open spec fn nothing_at(&self, path: Seq<Seq<u8>>) -> bool {
        forall|j: NodeIndex| !self.lies_at(j, path)
    }

    /// A record stays where it lies as long as the records that were there
    /// keep their names and parents.
    pub proof fn lemma_lies_at_kept(&self, later: &SearchCache, index: NodeIndex, path: Seq<Seq<u8>>)
        requires
            self.lies_at(index, path),
            forall|i: NodeIndex|
                #![trigger self.records().contains_key(i)]
                self.records().contains_key(i) ==> later.records().contains_key(i)
                    && later.records()[i] == self.records()[i] && later.name_at(i)
                    == self.name_at(i),
        ensures
            later.lies_at(index, path),
        decreases path.len(),
    {
        assert(later.records()[index] == self.records()[index]);
        match self.records()[index].parent {
            None => {},
            Some(parent) => {
                self.lemma_lies_at_kept(later, parent, path.drop_last());
            },
        }
    }

    /// The three parts are sound, every record names a string of the pool,
    /// and the name index lists exactly the records of the arena, each
    /// under its name.
    pub closed spec fn wf(&self) -> bool {
        &&& self.pool.wf()
        &&& self.arena.wf()
        &&& self.index.wf(self.pool@)
        &&& forall|i: NodeIndex|
            self.arena@.contains_key(i) ==> is_start(self.pool@, (#[trigger] self.arena@[i]).name as int)
        &&& forall|name: Seq<u8>, i: NodeIndex|
            #[trigger] self.index.holds(self.pool@, name, i) <==> self.arena@.contains_key(i)
                && span_bytes(self.pool@, self.arena@[i].name as int) == name
    }

    /// The name index and the arena agree: an index is listed under a name
    /// exactly when the arena holds a record under that index and the
    /// record bears that name.
    pub proof fn lemma_in_step(&self, name: Seq<u8>, index: NodeIndex)
        requires
            self.wf(),
        ensures
            self.lists(name, index) <==> self.records().contains_key(index) && self.name_at(index)
                == name,
    {
        assert(self.index.holds(self.pool@, name, index) == self.lists(name, index));
    }

    /// No name of the index is without a record.
    pub proof fn lemma_names_in_use(&self, name: Seq<u8>)
        requires
            self.wf(),
            self.by_name().contains_key(name),
        ensures
            exists|index: NodeIndex| self.records().contains_key(index) && self.name_at(index) == name,
    {
        self.index.lemma_no_empty_set(self.pool@, name);
        let index = choose|index: NodeIndex| self.index.holds(self.pool@, name, index);
        assert(self.records().contains_key(index) && self.name_at(index) == name);
    }

    /// An index without records: the arena and the name index are empty,
    /// and the name pool holds its leading guard alone.
    pub fn new() -> (r: Self)
        ensures
            r.wf(),
            r.records() == Map::<NodeIndex, NodeRecord>::empty(),
            r.by_name() == Map::<Seq<u8>, Set<NodeIndex>>::empty(),
            r.names() == seq![GUARD],
    {
        let pool = NamePool::new();
        let arena = NodeArena::new();
        let index = NameIndex::new();
        proof {
            pool.lemma_fenced();
            assert(index.view_in(pool@) == Map::<Seq<u8>, Set<NodeIndex>>::empty());
        }
        Self { pool, arena, index }
    }

    /// Stores a record for an entry named `name` and lists it under that
    /// name. The name is interned unless the index knows it already.
    pub fn insert(
        &mut self,
        name: &str,
        parent: Option<NodeIndex>,
        file_type: FileType,
        metadata: Option<NodeMetadata>,
    ) -> (index: NodeIndex)
        requires
            old(self).wf(),
            guard_free(name.spec_bytes()),
        ensures
            final(self).wf(),
            inserted(
                old(self).records(),
                final(self).records(),
                index,
                final(self).records()[index],
            ),
            final(self).records()[index].parent == parent,
            final(self).records()[index].file_type == file_type,
            final(self).records()[index].metadata == metadata,
            final(self).name_at(index) == name.spec_bytes(),
            forall|i: NodeIndex|
                old(self).records().contains_key(i) ==> #[trigger] final(self).name_at(i) == old(
                    self,
                ).name_at(i),
            final(self).names() == if old(self).by_name().contains_key(name.spec_bytes()) {
                old(self).names()
            } else {
                old(self).names() + name.spec_bytes() + seq![GUARD]
            },
    {
        let ghost pool0 = self.pool@;
        let ghost index0 = self.index;
        let ghost arena0 = self.arena@;
        let handle = match self.index.handle_of(&self.pool, name) {
            Some(handle) => handle,
            None => {
                let handle = self.pool.push(name);
                proof {
                    let pushed = name.spec_bytes() + seq![GUARD];
                    assert(self.pool@ =~= pool0 + pushed);
                    lemma_round_trip(pool0, name.spec_bytes());
                    index0.lemma_pool_grows(pool0, pushed);
                    assert forall|i: NodeIndex| arena0.contains_key(i) implies is_start(
                        self.pool@,
                        (#[trigger] arena0[i]).name as int,
                    ) && span_bytes(self.pool@, arena0[i].name as int) == span_bytes(
                        pool0,
                        arena0[i].name as int,
                    ) by {
                        assert(is_start(pool0, arena0[i].name as int));
                        crate::search::lemma_append_keeps_names(pool0, pushed, arena0[i].name as int);
                    }
                }
                handle
            },
        };
        let ghost pool1 = self.pool@;
        proof {
            assert forall|n: Seq<u8>, i: NodeIndex| #[trigger]
                self.index.holds(pool1, n, i) <==> arena0.contains_key(i) && span_bytes(
                    pool1,
                    arena0[i].name as int,
                ) == n by {
                assert(index0.holds(pool0, n, i) <==> arena0.contains_key(i) && span_bytes(
                    pool0,
                    arena0[i].name as int,
                ) == n);
            }
        }
        let record = NodeRecord { name: handle, parent, file_type, metadata };
        let index = self.arena.insert(record);
        let ghost index1 = self.index;
        self.index.add_interned(&self.pool, handle, index);
        proof {
            assert(inserted(arena0, self.arena@, index, record));
            assert forall|n: Seq<u8>, i: NodeIndex| #[trigger]
                self.index.holds(pool1, n, i) <==> self.arena@.contains_key(i) && span_bytes(
                    pool1,
                    self.arena@[i].name as int,
                ) == n by {
                assert(index1.holds(pool1, n, i) <==> arena0.contains_key(i) && span_bytes(
                    pool1,
                    arena0[i].name as int,
                ) == n);
            }
        }
        index
    }

    /// Takes the record under `index` out of the arena and off the list of
    /// its name. A name that no record bears any more leaves the index.
    pub fn remove(&mut self, index: NodeIndex) -> (r: Option<NodeRecord>)
        requires
            old(self).wf(),
        ensures
            final(self).wf(),
            final(self).names() == old(self).names(),
            removed(old(self).records(), final(self).records(), index),
            r == if old(self).records().contains_key(index) {
                Some(old(self).records()[index])
            } else {
                None
            },
    {
        let ghost arena0 = self.arena@;
        let ghost index0 = self.index;
        let record = match self.arena.remove(index) {
            Some(record) => record,
            None => {
                proof {
                    assert(self.arena@ =~= arena0);
                }
                return None;
            },
        };
        assert(is_start(self.pool@, arena0[index].name as int));
        let (_, name) = self.pool.get(record.name);
        self.index.remove_index(&self.pool, name, index);
        proof {
            let pool = self.pool@;
            let key = name.spec_bytes();
            assert(index0.holds(pool, key, index));
            assert forall|n: Seq<u8>, i: NodeIndex| #[trigger]
                self.index.holds(pool, n, i) <==> self.arena@.contains_key(i) && span_bytes(
                    pool,
                    self.arena@[i].name as int,
                ) == n by {
                assert(index0.holds(pool, n, i) <==> arena0.contains_key(i) && span_bytes(
                    pool,
                    arena0[i].name as int,
                ) == n);
                if n == key {
                    let before = index0.view_in(pool)[key];
                    let after = before.remove(index);
                    if after == Set::<NodeIndex>::empty() {
                        assert(!after.contains(i));
                    }
                }
            }
        }
        Some(record)
    }

    /// Takes out every record that bears `name`, and tells how many there
    /// were.
    pub fn remove_named(&mut self, name: &str) -> (count: usize)
        requires
            old(self).wf(),
        ensures
            final(self).wf(),
            final(self).names() == old(self).names(),
            forall|i: NodeIndex|
                final(self).records().contains_key(i) <==> old(self).records().contains_key(i)
                    && old(self).name_at(i) != name.spec_bytes(),
            forall|i: NodeIndex|
                final(self).records().contains_key(i) ==> final(self).records()[i] == old(
                    self,
                ).records()[i],
            !final(self).by_name().contains_key(name.spec_bytes()),
            count == old(self).listed(name.spec_bytes()).len(),
    {
        let list = match self.index.get(&self.pool, name) {
            Some(set) => set.to_sorted_vec(),
            None => {
                proof {
                    assert forall|i: NodeIndex| old(self).records().contains_key(i) implies old(
                        self,
                    ).name_at(i) != name.spec_bytes() by {
                        old(self).lemma_in_step(name.spec_bytes(), i);
                    }
                    assert(old(self).listed(name.spec_bytes()) =~= Set::<NodeIndex>::empty());
                }
                return 0;
            },
        };
        let ghost key = name.spec_bytes();
        proof {
            assert forall|i: NodeIndex| list@.contains(i) <==> old(self).records().contains_key(i)
                && old(self).name_at(i) == key by {
                old(self).lemma_in_step(key, i);
                assert(list@.to_set().contains(i) == list@.contains(i));
            }
            assert(list@.no_duplicates());
            list@.unique_seq_to_set();
            assert(list@.to_set() =~= old(self).listed(key));
        }
        let mut k: usize = 0;
        while k < list.len()
            invariant
                self.wf(),
                k <= list@.len(),
                self.names() == old(self).names(),
                forall|i: NodeIndex|
                    list@.contains(i) <==> old(self).records().contains_key(i) && old(
                        self,
                    ).name_at(i) == key,
                forall|i: NodeIndex|
                    self.records().contains_key(i) <==> old(self).records().contains_key(i)
                        && !list@.take(k as int).contains(i),
                forall|i: NodeIndex|
                    self.records().contains_key(i) ==> self.records()[i] == old(
                        self,
                    ).records()[i],
            decreases list@.len() - k,
        {
            let ghost before = self.records();
            self.remove(list[k]);
            proof {
                let seen = list@.take(k as int);
                let seen2 = list@.take(k + 1);
                assert(seen2 =~= seen.push(list@[k as int]));
                assert forall|i: NodeIndex|
                    self.records().contains_key(i) <==> old(self).records().contains_key(i)
                        && !seen2.contains(i) by {
                    if seen2.contains(i) {
                        let x = choose|x: int| 0 <= x < seen2.len() && seen2[x] == i;
                        if x < seen.len() {
                            assert(seen[x] == i);
                            assert(seen.contains(i));
                        }
                    }
                    if seen.contains(i) {
                        let x = choose|x: int| 0 <= x < seen.len() && seen[x] == i;
                        assert(seen2[x] == i);
                    }
                    assert(seen2[seen.len() as int] == list@[k as int]);
                    assert(before.contains_key(i) <==> old(self).records().contains_key(i)
                        && !seen.contains(i));
                }
            }
            k += 1;
        }
        proof {
            assert(list@.take(list@.len() as int) =~= list@);
            if self.by_name().contains_key(key) {
                self.lemma_names_in_use(key);
                let i = choose|i: NodeIndex|
                    self.records().contains_key(i) && self.name_at(i) == key;
                assert(old(self).name_at(i) == key);
            }
        }
        list.len()
    }

    /// Whether the record under `index` lies at the first `len` names of
    /// `path`.
    pub fn is_at(&self, index: NodeIndex, path: &Vec<String>, len: usize) -> (r: bool)
        requires
            self.wf(),
            len <= path@.len(),
        ensures
            r == self.lies_at(index, path_names(path@).take(len as int)),
    {
        let ghost names = path_names(path@);
        if len == 0 {
            return false;
        }
        let mut current = index;
        let mut k = len;
        loop
            invariant
                self.wf(),
                names == path_names(path@),
                0 < k <= len <= path@.len(),
                self.lies_at(index, names.take(len as int)) == self.lies_at(
                    current,
                    names.take(k as int),
                ),
            decreases k,
        {
            let ghost here = names.take(k as int);
            proof {
                assert(here.last() == encode_utf8(path@[k - 1]@));
                assert(here.drop_last() =~= names.take(k - 1));
            }
            let record = match self.arena.get(current) {
                Some(record) => *record,
                None => {
                    return false;
                },
            };
            assert(is_start(self.pool@, self.arena@[current].name as int));
            let (_, name) = self.pool.get(record.name);
            match compare(name.as_bytes(), path[k - 1].as_str().as_bytes()) {
                Rank::Same => {},
                _ => {
                    return false;
                },
            }
            match record.parent {
                None => {
                    return k == 1;
                },
                Some(parent) => {
                    if k == 1 {
                        return false;
                    }
                    current = parent;
                    k -= 1;
                },
            }
        }
    }

    /// The least index of a record that lies at the first `len` names of
    /// `path`, if any record lies there.
    pub fn find_prefix(&self, path: &Vec<String>, len: usize) -> (r: Option<NodeIndex>)
        requires
            self.wf(),
            len <= path@.len(),
        ensures
            match r {
                Some(index) => self.is_first_at(index, path_names(path@).take(len as int)),
                None => self.nothing_at(path_names(path@).take(len as int)),
            },
    {
        let ghost at = path_names(path@).take(len as int);
        if len == 0 {
            return None;
        }
        let last = path[len - 1].as_str();
        let list = match self.index.get(&self.pool, last) {
            Some(set) => set.to_sorted_vec(),
            None => {
                proof {
                    assert forall|j: NodeIndex| !self.lies_at(j, at) by {
                        if self.lies_at(j, at) {
                            assert(at.last() == last.spec_bytes());
                            self.lemma_in_step(last.spec_bytes(), j);
                        }
                    }
                }
                return None;
            },
        };
        proof {
            assert(at.last() == last.spec_bytes());
            assert forall|j: NodeIndex| self.lies_at(j, at) implies list@.contains(j) by {
                self.lemma_in_step(last.spec_bytes(), j);
                assert(list@.to_set().contains(j));
            }
        }
        let mut k: usize = 0;
        while k < list.len()
            invariant
                self.wf(),
                len <= path@.len(),
                at == path_names(path@).take(len as int),
                k <= list@.len(),
                forall|a: int, b: int| 0 <= a < b < list@.len() ==> list@[a] < list@[b],
                forall|j: NodeIndex| self.lies_at(j, at) ==> list@.contains(j),
                forall|i: int| 0 <= i < k ==> !self.lies_at(#[trigger] list@[i], at),
            decreases list@.len() - k,
        {
            if self.is_at(list[k], path, len) {
                proof {
                    assert forall|j: NodeIndex| j < list@[k as int] implies !self.lies_at(j, at) by {
                        if self.lies_at(j, at) {
                            let i = choose|i: int| 0 <= i < list@.len() && list@[i] == j;
                            if i >= k {
                                if i > k {
                                    assert(list@[k as int] < list@[i]);
                                }
                            }
                        }
                    }
                }
                return Some(list[k]);
            }
            k += 1;
        }
        proof {
            assert forall|j: NodeIndex| !self.lies_at(j, at) by {
                if self.lies_at(j, at) {
                    let i = choose|i: int| 0 <= i < list@.len() && list@[i] == j;
                    assert(!self.lies_at(list@[i], at));
                }
            }
        }
        None
    }

    /// The least index of a record that lies at `path`, if any record lies
    /// there.
    pub fn find_path(&self, path: &Vec<String>) -> (r: Option<NodeIndex>)
        requires
            self.wf(),
        ensures
            match r {
                Some(index) => self.is_first_at(index, path_names(path@)),
                None => self.nothing_at(path_names(path@)),
            },
    {
        proof {
            assert(path_names(path@).take(path@.len() as int) =~= path_names(path@));
        }
        self.find_prefix(path, path.len())
    }

    /// Stores a record for the entry at `path`, below the first record
    /// that lies at the path before the last name, or without a parent
    /// where the path is one name. Nothing is stored, and nothing changes,
    /// where the path is empty, where its last name holds the guard byte,
    /// or where no record lies at the path before the last name.
    pub fn insert_path(
        &mut self,
        path: &Vec<String>,
        file_type: FileType,
        metadata: Option<NodeMetadata>,
    ) -> (r: Option<NodeIndex>)
        requires
            old(self).wf(),
        ensures
            final(self).wf(),
            match r {
                Some(index) => {
                    &&& path@.len() > 0
                    &&& guard_free(path_names(path@).last())
                    &&& inserted(
                        old(self).records(),
                        final(self).records(),
                        index,
                        final(self).records()[index],
                    )
                    &&& final(self).records()[index].file_type == file_type
                    &&& final(self).records()[index].metadata == metadata
                    &&& match final(self).records()[index].parent {
                        None => path@.len() == 1,
                        Some(parent) => path@.len() > 1 && old(self).is_first_at(
                            parent,
                            path_names(path@).drop_last(),
                        ),
                    }
                    &&& final(self).lies_at(index, path_names(path@))
                    &&& forall|i: NodeIndex|
                        old(self).records().contains_key(i) ==> #[trigger] final(self).name_at(i)
                            == old(self).name_at(i)
                },
                None => {
                    &&& final(self).records() == old(self).records()
                    &&& final(self).names() == old(self).names()
                    &&& final(self).by_name() == old(self).by_name()
                    &&& path@.len() == 0 || !guard_free(path_names(path@).last()) || (path@.len()
                        > 1 && old(self).nothing_at(path_names(path@).drop_last()))
                },
            },
    {
        let ghost names = path_names(path@);
        let len = path.len();
        if len == 0 {
            return None;
        }
        let last = path[len - 1].as_str();
        proof {
            assert(names.last() == last.spec_bytes());
            assert(names.drop_last() =~= names.take(len - 1));
        }
        if !is_guard_free(last.as_bytes()) {
            return None;
        }
        let parent = if len == 1 {
            None
        } else {
            match self.find_prefix(path, len - 1) {
                Some(parent) => Some(parent),
                None => {
                    return None;
                },
            }
        };
        let index = self.insert(last, parent, file_type, metadata);
        proof {
            match parent {
                None => {},
                Some(above) => {
                    old(self).lemma_lies_at_kept(&*self, above, names.drop_last());
                },
            }
        }
        Some(index)
    }

    /// Takes out the first record that lies at `path`, and returns its index
    /// and the record. Nothing changes where no record lies there.
    pub fn remove_path(&mut self, path: &Vec<String>) -> (r: Option<(NodeIndex, NodeRecord)>)
        requires
            old(self).wf(),
        ensures
            final(self).wf(),
            final(self).names() == old(self).names(),
            match r {
                Some((index, record)) => old(self).is_first_at(index, path_names(path@)) && record
                    == old(self).records()[index] && removed(
                    old(self).records(),
                    final(self).records(),
                    index,
                ),
                None => old(self).nothing_at(path_names(path@)) && final(self).records() == old(
                    self,
                ).records() && final(self).by_name() == old(self).by_name(),
            },
    {
        let index = match self.find_path(path) {
            Some(index) => index,
            None => {
                return None;
            },
        };
        match self.remove(index) {
            Some(record) => Some((index, record)),
            None => None,
        }
    }

    /// Whether following the parents from `index`, for `steps` steps at
    /// most, leads to `top`.
    pub fn is_below(&self, index: NodeIndex, top: NodeIndex, steps: usize) -> (r: bool)
        ensures
            r == self.descends(index, top, steps as nat),
    {
        let mut current = index;
        let mut left = steps;
        loop
            invariant
                self.descends(index, top, steps as nat) == self.descends(current, top, left as nat),
            decreases left,
        {
            let record = match self.arena.get(current) {
                Some(record) => *record,
                None => {
                    return false;
                },
            };
            if current == top {
                return true;
            }
            if left == 0 {
                return false;
            }
            match record.parent {
                None => {
                    return false;
                },
                Some(parent) => {
                    current = parent;
                    left -= 1;
                },
            }
        }
    }

    /// Takes out the record under `top` and every record below it: each
    /// record from which the parents lead to `top` in as many steps as
    /// there are records, which is every step that a tree allows.
    pub fn remove_subtree(&mut self, top: NodeIndex)
        requires
            old(self).wf(),
        ensures
            final(self).wf(),
            final(self).names() == old(self).names(),
            forall|i: NodeIndex|
                final(self).records().contains_key(i) <==> old(self).records().contains_key(i)
                    && !old(self).descends(i, top, old(self).records().dom().len()),
            forall|i: NodeIndex|
                final(self).records().contains_key(i) ==> final(self).records()[i] == old(
                    self,
                ).records()[i],
    {
        let all = self.arena.indices();
        let steps = all.len();
        proof {
            assert forall|a: int, b: int| 0 <= a < all@.len() && 0 <= b < all@.len() && a
                != b implies all@[a] != all@[b] by {
                if a < b {
                    assert(all@[a] < all@[b]);
                } else {
                    assert(all@[b] < all@[a]);
                }
            }
            all@.unique_seq_to_set();
            assert(all@.to_set() =~= self.records().dom());
        }
        let mut doomed: Vec<NodeIndex> = Vec::new();
        let mut k: usize = 0;
        while k < all.len()
            invariant
                k <= all@.len(),
                steps == self.records().dom().len(),
                forall|i: NodeIndex|
                    doomed@.contains(i) <==> all@.take(k as int).contains(i) && self.descends(
                        i,
                        top,
                        steps as nat,
                    ),
            decreases all@.len() - k,
        {
            let index = all[k];
            let below = self.is_below(index, top, steps);
            let ghost before = doomed@;
            if below {
                doomed.push(index);
            }
            proof {
                let seen = all@.take(k as int);
                let seen2 = all@.take(k + 1);
                assert(seen2 =~= seen.push(index));
                assert forall|i: NodeIndex|
                    doomed@.contains(i) <==> seen2.contains(i) && self.descends(
                        i,
                        top,
                        steps as nat,
                    ) by {
                    if seen2.contains(i) {
                        let x = choose|x: int| 0 <= x < seen2.len() && seen2[x] == i;
                        if x < seen.len() {
                            assert(seen[x] == i);
                            assert(seen.contains(i));
                        }
                    }
                    if seen.contains(i) {
                        let x = choose|x: int| 0 <= x < seen.len() && seen[x] == i;
                        assert(seen2[x] == i);
                    }
                    assert(seen2[seen.len() as int] == index);
                    if doomed@.contains(i) {
                        let x = choose|x: int| 0 <= x < doomed@.len() && doomed@[x] == i;
                        if x < before.len() {
                            assert(before[x] == i);
                            assert(before.contains(i));
                        }
                    }
                    if before.contains(i) {
                        let x = choose|x: int| 0 <= x < before.len() && before[x] == i;
                        assert(doomed@[x] == i);
                    }
                    if below {
                        assert(doomed@[before.len() as int] == index);
                    }
                    assert(before.contains(i) <==> seen.contains(i) && self.descends(
                        i,
                        top,
                        steps as nat,
                    ));
                }
            }
            k += 1;
        }
        proof {
            assert(all@.take(all@.len() as int) =~= all@);
        }
        let mut j: usize = 0;
        while j < doomed.len()
            invariant
                self.wf(),
                j <= doomed@.len(),
                self.names() == old(self).names(),
                forall|i: NodeIndex|
                    self.records().contains_key(i) <==> old(self).records().contains_key(i)
                        && !doomed@.take(j as int).contains(i),
                forall|i: NodeIndex|
                    self.records().contains_key(i) ==> self.records()[i] == old(
                        self,
                    ).records()[i],
            decreases doomed@.len() - j,
        {
            let ghost before = self.records();
            self.remove(doomed[j]);
            proof {
                let seen = doomed@.take(j as int);
                let seen2 = doomed@.take(j + 1);
                assert(seen2 =~= seen.push(doomed@[j as int]));
                assert forall|i: NodeIndex|
                    self.records().contains_key(i) <==> old(self).records().contains_key(i)
                        && !seen2.contains(i) by {
                    if seen2.contains(i) {
                        let x = choose|x: int| 0 <= x < seen2.len() && seen2[x] == i;
                        if x < seen.len() {
                            assert(seen[x] == i);
                            assert(seen.contains(i));
                        }
                    }
                    if seen.contains(i) {
                        let x = choose|x: int| 0 <= x < seen.len() && seen[x] == i;
                        assert(seen2[x] == i);
                    }
                    assert(seen2[seen.len() as int] == doomed@[j as int]);
                    assert(before.contains_key(i) <==> old(self).records().contains_key(i)
                        && !seen.contains(i));
                }
            }
            j += 1;
        }
        proof {
            assert(doomed@.take(doomed@.len() as int) =~= doomed@);
            assert forall|i: NodeIndex|
                self.records().contains_key(i) <==> old(self).records().contains_key(i) && !old(
                    self,
                ).descends(i, top, old(self).records().dom().len()) by {
                if old(self).records().contains_key(i) {
                    assert(all@.contains(i));
                }
            }
        }
    }

    /// The record under `index`, if there is one.
    pub fn get(&self, index: NodeIndex) -> (r: Option<&NodeRecord>)
        ensures
            match r {
                Some(record) => self.records().contains_key(index) && *record
                    == self.records()[index],
                None => !self.records().contains_key(index),
            },
    {
        self.arena.get(index)
    }

    /// The name of the record under `index`, if there is one.
    pub fn name_of(&self, index: NodeIndex) -> (r: Option<&str>)
        requires
            self.wf(),
        ensures
            match r {
                Some(name) => self.records().contains_key(index) && name.spec_bytes()
                    == self.name_at(index),
                None => !self.records().contains_key(index),
            },
    {
        match self.arena.get(index) {
            Some(record) => {
                assert(is_start(self.pool@, self.arena@[index].name as int));
                let (_, name) = self.pool.get(record.name);
                Some(name)
            },
            None => None,
        }
    }

    /// The records that bear `name`, if any does.
    pub fn lookup(&self, name: &str) -> (r: Option<&IndexSet>)
        requires
            self.wf(),
        ensures
            match r {
                Some(set) => self.by_name().contains_key(name.spec_bytes()) && set@
                    == self.by_name()[name.spec_bytes()],
                None => !self.by_name().contains_key(name.spec_bytes()),
            },
    {
        self.index.get(&self.pool, name)
    }

    /// The name pool, for searches by substring, prefix, suffix or whole
    /// name.
    pub fn pool(&self) -> (r: &NamePool)
        requires
            self.wf(),
        ensures
            r.wf(),
            r@ == self.names(),
    {
        &self.pool
    }

    /// What is kept on disk of the index: the arena as it is, and the name
    /// index with names of its own, in the order of the names, the indices
    /// of each name from the smallest to the largest. The names of the
    /// records are to be read from the name index: the offsets that the
    /// records hold are good for this pool only.
    pub fn into_persistent(self) -> (r: PersistentStorage)
        requires
            self.wf(),
        ensures
            r.slab@ == self.records(),
            r.slab.wf(),
            forall|k: int|
                0 <= k < r.name_index@.len() ==> self.by_name().contains_key(
                    encode_utf8((#[trigger] r.name_index@[k]).0@),
                ) && r.name_index@[k].1@.to_set() == self.by_name()[encode_utf8(
                    r.name_index@[k].0@,
                )],
            forall|name: Seq<u8>| #[trigger]
                self.by_name().contains_key(name) ==> has_name(r.name_index@, name),
            consistent(r.slab@, r.name_index@),
    {
        let name_index = self.index.into_persistent(&self.pool);
        proof {
            let ni = name_index@;
            let pool = self.pool@;
            let keys = self.index.keys(pool);
            assert forall|name: Seq<u8>| #[trigger]
                self.by_name().contains_key(name) implies has_name(ni, name) by {
                assert(keys.contains(name));
                let k = choose|k: int| 0 <= k < keys.len() && keys[k] == name;
                assert(encode_utf8(ni[k].0@) == name);
            }
            assert forall|k: int| 0 <= k < ni.len() implies guard_free(
                encode_utf8((#[trigger] ni[k]).0@),
            ) by {
                self.index.lemma_keys_guard_free(pool, encode_utf8(ni[k].0@));
            }
            assert forall|k: int, j: int| is_place(ni, k, j) implies self.arena@.contains_key(
                #[trigger] ni[k].1@[j],
            ) && span_bytes(pool, self.arena@[ni[k].1@[j]].name as int) == encode_utf8(
                ni[k].0@,
            ) by {
                let name = encode_utf8(ni[k].0@);
                assert(ni[k].1@.to_set().contains(ni[k].1@[j]));
                assert(self.index.holds(pool, name, ni[k].1@[j]));
            }
            assert forall|k: int, j: int, k2: int, j2: int|
                #![trigger ni[k].1@[j], ni[k2].1@[j2]]
                is_place(ni, k, j) && is_place(ni, k2, j2) && (k != k2 || j != j2) implies ni[k].1@[j]
                != ni[k2].1@[j2] by {
                if k == k2 {
                    if j < j2 {
                        assert(ni[k].1@[j] < ni[k].1@[j2]);
                    } else {
                        assert(ni[k].1@[j2] < ni[k].1@[j]);
                    }
                } else if ni[k].1@[j] == ni[k2].1@[j2] {
                    assert(keys[k] == encode_utf8(ni[k].0@));
                    assert(keys[k2] == encode_utf8(ni[k2].0@));
                    if k < k2 {
                        crate::lex::lemma_lt_asymmetric(keys[k], keys[k2]);
                    } else {
                        crate::lex::lemma_lt_asymmetric(keys[k2], keys[k]);
                    }
                }
            }
            assert forall|i: NodeIndex| self.arena@.contains_key(i) implies listed_in(ni, i) by {
                let name = span_bytes(pool, self.arena@[i].name as int);
                assert(self.index.holds(pool, name, i));
                assert(keys.contains(name));
                let k = choose|k: int| 0 <= k < keys.len() && keys[k] == name;
                assert(encode_utf8(ni[k].0@) == name);
                assert(ni[k].1@.to_set().contains(i));
                let j = choose|j: int| 0 <= j < ni[k].1@.len() && ni[k].1@[j] == i;
                assert(is_place(ni, k, j) && comes_before(k, j, ni.len() as int, 0));
            }
        }
        PersistentStorage { slab: self.arena, name_index }
    }

    /// The index of a snapshot. The names of the name index are interned in
    /// a pool of their own, and each record is given the name that it is
    /// listed under. A snapshot that is not one of an index is refused.
    pub fn from_persistent(storage: PersistentStorage) -> (r: Result<SearchCache, RestoreError>)
        requires
            storage.slab.wf(),
        ensures
            match r {
                Ok(cache) => {
                    &&& cache.wf()
                    &&& consistent(storage.slab@, storage.name_index@)
                    &&& cache.records().dom() == storage.slab@.dom()
                    &&& forall|i: NodeIndex|
                        storage.slab@.contains_key(i) ==> same_but_name(
                            #[trigger] cache.records()[i],
                            storage.slab@[i],
                        )
                    &&& forall|k: int, j: int|
                        is_place(storage.name_index@, k, j) ==> cache.name_at(
                            #[trigger] storage.name_index@[k].1@[j],
                        ) == encode_utf8(storage.name_index@[k].0@)
                },
                Err(error) => !consistent(storage.slab@, storage.name_index@) && is_first_defect(
                    storage.slab@,
                    storage.name_index@,
                    error,
                ),
            },
    {
        let ghost slab = storage.slab@;
        let ghost ni = storage.name_index@;
        let name_index = storage.name_index;
        let mut slots = storage.slab.into_slots();
        let n = slots.len();
        let mut named: Vec<bool> = vec![false; n];
        let mut pool = NamePool::new();
        let mut k: usize = 0;
        proof {
            pool.lemma_fenced();
        }
        while k < name_index.len()
            invariant
                slab == storage.slab@,
                ni == storage.name_index@,
                name_index@ == ni,
                k <= ni.len(),
                pool.wf(),
                slots@.len() == n,
                renamed(slab, ni, pool@, slots@, named@, k as int, 0),
            decreases ni.len() - k,
        {
            let name = name_index[k].0.as_str();
            if !is_guard_free(name.as_bytes()) {
                proof {
                    assert(!guard_free(encode_utf8(ni[k as int].0@)));
                    assert(places_sound_before(slab, ni, k as int, 0));
                }
                return Err(RestoreError::BadName);
            }
            let ghost pool0 = pool@;
            let handle = pool.push(name);
            proof {
                let pushed = name.spec_bytes() + seq![GUARD];
                assert(pool@ =~= pool0 + pushed);
                pool.lemma_fenced();
                lemma_round_trip(pool0, name.spec_bytes());
                assert forall|k2: int, j2: int|
                    is_place(ni, k2, j2) && comes_before(k2, j2, k as int, 0) implies {
                    let i = #[trigger] ni[k2].1@[j2];
                    &&& is_start(pool@, slots@[i as int]->0.name as int)
                    &&& span_bytes(pool@, slots@[i as int]->0.name as int) == encode_utf8(
                        ni[k2].0@,
                    )
                } by {
                    let i = ni[k2].1@[j2];
                    assert(is_start(pool0, slots@[i as int]->0.name as int));
                    lemma_append_keeps_names(pool0, pushed, slots@[i as int]->0.name as int);
                }
            }
            let list = &name_index[k].1;
            let mut j: usize = 0;
            while j < list.len()
                invariant
                    slab == storage.slab@,
                    ni == storage.name_index@,
                    name_index@ == ni,
                    k < ni.len(),
                    *list == ni[k as int].1,
                    j <= list@.len(),
                    pool.wf(),
                    slots@.len() == n,
                    is_start(pool@, handle as int),
                    span_bytes(pool@, handle as int) == encode_utf8(ni[k as int].0@),
                    guard_free(encode_utf8(ni[k as int].0@)),
                    renamed(slab, ni, pool@, slots@, named@, k as int, j as int),
                decreases list@.len() - j,
            {
                let index = list[j];
                assert(is_place(ni, k as int, j as int));
                assert(ni[k as int].1@[j as int] == index);
                proof {
                    assert(places_sound_before(slab, ni, k as int, j as int));
                    assert(names_sound_below(ni, k + 1));
                }
                if index >= n {
                    proof {
                        assert(!slab.contains_key(ni[k as int].1@[j as int]));
                    }
                    return Err(RestoreError::UnknownIndex);
                }
                let record = match slots[index] {
                    Some(record) => record,
                    None => {
                        proof {
                            assert(!slab.contains_key(ni[k as int].1@[j as int]));
                        }
                        return Err(RestoreError::UnknownIndex);
                    },
                };
                assert(slab.contains_key(ni[k as int].1@[j as int]));
                if named[index] {
                    proof {
                        assert(listed_before(ni, k as int, j as int, index));
                        let (k2, j2) = choose|k2: int, j2: int|
                            is_place(ni, k2, j2) && comes_before(k2, j2, k as int, j as int)
                                && #[trigger] ni[k2].1@[j2] == index;
                        assert(comes_before(k2, j2, ni.len() as int, 0));
                        assert(comes_before(k as int, j as int, ni.len() as int, 0));
                        assert(ni[k2].1@[j2] == ni[k as int].1@[j as int]);
                        assert(!distinct_before(ni, ni.len() as int, 0));
                    }
                    return Err(RestoreError::ListedTwice);
                }
                let ghost slots0 = slots@;
                let ghost named0 = named@;
                slots[index] = Some(
                    NodeRecord {
                        name: handle,
                        parent: record.parent,
                        file_type: record.file_type,
                        metadata: record.metadata,
                    },
                );
                named[index] = true;
                proof {
                    assert(!listed_before(ni, k as int, j as int, index));
                    assert forall|i: usize| i < named@.len() implies (#[trigger] named@[i as int]
                        <==> listed_before(ni, k as int, j + 1, i)) by {
                        if i == index {
                            assert(comes_before(k as int, j as int, k as int, j + 1));
                        } else {
                            assert(named0[i as int] <==> listed_before(ni, k as int, j as int, i));
                            if listed_before(ni, k as int, j + 1, i) {
                                let (k2, j2) = choose|k2: int, j2: int|
                                    is_place(ni, k2, j2) && comes_before(k2, j2, k as int, j + 1)
                                        && #[trigger] ni[k2].1@[j2] == i;
                                assert(comes_before(k2, j2, k as int, j as int));
                            }
                            if listed_before(ni, k as int, j as int, i) {
                                let (k2, j2) = choose|k2: int, j2: int|
                                    is_place(ni, k2, j2) && comes_before(k2, j2, k as int, j as int)
                                        && #[trigger] ni[k2].1@[j2] == i;
                                assert(comes_before(k2, j2, k as int, j + 1));
                            }
                        }
                    }
                    assert forall|k2: int, j2: int|
                        is_place(ni, k2, j2) && comes_before(k2, j2, k as int, j + 1) implies {
                        let i = #[trigger] ni[k2].1@[j2];
                        &&& slab.contains_key(i)
                        &&& is_start(pool@, slots@[i as int]->0.name as int)
                        &&& span_bytes(pool@, slots@[i as int]->0.name as int) == encode_utf8(
                            ni[k2].0@,
                        )
                    } by {
                        let i = ni[k2].1@[j2];
                        if k2 == k && j2 == j {
                            assert(slots0[index as int] is Some);
                        } else {
                            assert(comes_before(k2, j2, k as int, j as int));
                            if i == index {
                                assert(listed_before(ni, k as int, j as int, index));
                            }
                        }
                    }
                    assert forall|k1: int, j1: int, k2: int, j2: int|
                        #![trigger ni[k1].1@[j1], ni[k2].1@[j2]]
                        is_place(ni, k1, j1) && comes_before(k1, j1, k as int, j + 1) && is_place(
                            ni,
                            k2,
                            j2,
                        ) && comes_before(k2, j2, k as int, j + 1) && (k1 != k2 || j1 != j2)
                        implies ni[k1].1@[j1] != ni[k2].1@[j2] by {
                        if k1 == k && j1 == j {
                            assert(comes_before(k2, j2, k as int, j as int));
                            if ni[k2].1@[j2] == index {
                                assert(listed_before(ni, k as int, j as int, index));
                            }
                        } else if k2 == k && j2 == j {
                            assert(comes_before(k1, j1, k as int, j as int));
                            if ni[k1].1@[j1] == index {
                                assert(listed_before(ni, k as int, j as int, index));
                            }
                        } else {
                            assert(comes_before(k1, j1, k as int, j as int));
                            assert(comes_before(k2, j2, k as int, j as int));
                        }
                    }
                    assert forall|i: usize| slab.contains_key(i) implies same_but_name(
                        (#[trigger] slots@[i as int])->0,
                        slab[i],
                    ) by {
                        if i != index {
                            assert(slots@[i as int] == slots0[i as int]);
                        }
                    }
                    assert forall|i: usize|
                        slab.contains_key(i) <==> i < slots@.len() && (#[trigger] slots@[i as int]) is Some by {
                        if i != index && i < slots@.len() {
                            assert(slots@[i as int] == slots0[i as int]);
                        }
                    }
                }
                j += 1;
            }
            proof {
                assert forall|i: usize| i < named@.len() implies (#[trigger] named@[i as int]
                    <==> listed_before(ni, k + 1, 0, i)) by {
                    if listed_before(ni, k + 1, 0, i) {
                        let (k2, j2) = choose|k2: int, j2: int|
                            is_place(ni, k2, j2) && comes_before(k2, j2, k + 1, 0) && #[trigger] ni[k2].1@[j2]
                                == i;
                        assert(comes_before(k2, j2, k as int, j as int));
                    }
                    if listed_before(ni, k as int, j as int, i) {
                        let (k2, j2) = choose|k2: int, j2: int|
                            is_place(ni, k2, j2) && comes_before(k2, j2, k as int, j as int)
                                && #[trigger] ni[k2].1@[j2] == i;
                        assert(comes_before(k2, j2, k + 1, 0));
                    }
                }
                assert forall|k2: int, j2: int|
                    is_place(ni, k2, j2) && comes_before(k2, j2, k + 1, 0) implies {
                    let i = #[trigger] ni[k2].1@[j2];
                    &&& slab.contains_key(i)
                    &&& is_start(pool@, slots@[i as int]->0.name as int)
                    &&& span_bytes(pool@, slots@[i as int]->0.name as int) == encode_utf8(
                        ni[k2].0@,
                    )
                } by {
                    assert(comes_before(k2, j2, k as int, j as int));
                }
                assert forall|k1: int, j1: int, k2: int, j2: int|
                    #![trigger ni[k1].1@[j1], ni[k2].1@[j2]]
                    is_place(ni, k1, j1) && comes_before(k1, j1, k + 1, 0) && is_place(ni, k2, j2)
                        && comes_before(k2, j2, k + 1, 0) && (k1 != k2 || j1 != j2) implies ni[k1].1@[j1]
                    != ni[k2].1@[j2] by {
                    assert(comes_before(k1, j1, k as int, j as int));
                    assert(comes_before(k2, j2, k as int, j as int));
                }
            }
            k += 1;
        }
        let mut i: usize = 0;
        while i < n
            invariant
                slab == storage.slab@,
                ni == storage.name_index@,
                i <= n,
                slots@.len() == n,
                k == ni.len(),
                renamed(slab, ni, pool@, slots@, named@, k as int, 0),
                forall|x: usize| x < i && slab.contains_key(x) ==> listed_in(ni, x),
            decreases n - i,
        {
            if slots[i].is_some() && !named[i] {
                proof {
                    assert(slab.contains_key(i));
                    assert(!listed_in(ni, i));
                    assert(names_sound_below(ni, ni.len() as int));
                    assert(places_sound_before(slab, ni, ni.len() as int, 0));
                }
                return Err(RestoreError::Unnamed);
            }
            i += 1;
        }
        let ghost slots1 = slots@;
        let arena = NodeArena::from_slots(slots);
        proof {
            assert forall|x: NodeIndex| slab.contains_key(x) implies listed_in(ni, x) by {
                if x >= n {
                    assert(x < slots1.len() && slots1[x as int] is Some);
                }
            }
            assert forall|x: NodeIndex| arena@.contains_key(x) <==> slab.contains_key(x) by {
                if x < slots1.len() {
                    assert(slots1[x as int] is Some <==> slab.contains_key(x));
                    assert(slots1[x as int] is Some <==> arena@.contains_key(x));
                }
            }
            assert(arena@.dom() =~= slab.dom());
            assert forall|x: NodeIndex| arena@.contains_key(x) implies is_start(
                pool@,
                (#[trigger] arena@[x]).name as int,
            ) && arena@[x] == slots1[x as int]->0 by {
                assert(slots1[x as int] is Some);
                assert(slab.contains_key(x));
                assert(listed_in(ni, x));
                let (k2, j2) = choose|k2: int, j2: int|
                    is_place(ni, k2, j2) && comes_before(k2, j2, ni.len() as int, 0) && #[trigger] ni[k2].1@[j2]
                        == x;
                assert(is_start(pool@, slots1[ni[k2].1@[j2] as int]->0.name as int));
            }
        }
        let index = NameIndex::from_slab(&arena, &pool);
        let cache = SearchCache { pool, arena, index };
        proof {
            assert forall|x: NodeIndex| slab.contains_key(x) implies same_but_name(
                #[trigger] cache.records()[x],
                slab[x],
            ) by {
                assert(arena@.contains_key(x));
                assert(same_but_name(slots1[x as int]->0, slab[x]));
            }
            assert forall|k2: int, j2: int| is_place(ni, k2, j2) implies cache.name_at(
                #[trigger] ni[k2].1@[j2],
            ) == encode_utf8(ni[k2].0@) by {
                assert(comes_before(k2, j2, ni.len() as int, 0));
            }
            assert forall|k2: int, j2: int| is_place(ni, k2, j2) implies slab.contains_key(
                #[trigger] ni[k2].1@[j2],
            ) by {
                assert(comes_before(k2, j2, ni.len() as int, 0));
            }
        }
        Ok(cache)
    }

    /// The indices of the records, from the smallest to the largest.
    pub fn indices(&self) -> (out: Vec<NodeIndex>)
        ensures
            forall|i: NodeIndex| out@.contains(i) <==> self.records().contains_key(i),
            forall|k: int, l: int| 0 <= k < l < out@.len() ==> out@[k] < out@[l],
    {
        self.arena.indices()
    }
}

} // verus!
