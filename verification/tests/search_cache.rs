use cardinal::arena::NodeArena;
use cardinal::node::{FileType, NodeMetadata, NodeRecord};
use cardinal::persist::PersistentStorage;
use cardinal::search_cache::{RestoreError, SearchCache};

fn members(cache: &SearchCache, name: &str) -> Option<Vec<usize>> {
    cache.lookup(name).map(|set| set.to_sorted_vec())
}

#[test]
fn file_is_created_and_deleted() {
    let mut cache = SearchCache::new();
    let root = cache.insert("x", None, FileType::Dir, None);
    let size = Some(NodeMetadata::new(None, None, 100));
    let file = cache.insert("a.txt", Some(root), FileType::File, size);

    let record = *cache.get(file).unwrap();
    assert_eq!(record.parent, Some(root));
    assert_eq!(record.file_type, FileType::File);
    assert_eq!(record.metadata.unwrap().size, 100);
    assert_eq!(cache.name_of(file), Some("a.txt"));
    assert_eq!(members(&cache, "a.txt"), Some(vec![file]));
    assert_eq!(cache.indices(), vec![root, file]);

    let gone = cache.remove(file).unwrap();
    assert_eq!(gone, record);
    assert_eq!(cache.get(file), None);
    assert_eq!(cache.name_of(file), None);
    assert_eq!(members(&cache, "a.txt"), None);
    assert_eq!(members(&cache, "x"), Some(vec![root]));
    assert_eq!(cache.remove(file), None);
}

#[test]
fn records_of_one_name_share_the_interned_name() {
    let mut cache = SearchCache::new();
    let a = cache.insert("same", None, FileType::File, None);
    let len = cache.pool().len();
    let b = cache.insert("same", None, FileType::File, None);
    assert_eq!(cache.pool().len(), len);
    assert_eq!(cache.get(a).unwrap().name, cache.get(b).unwrap().name);
    assert_eq!(members(&cache, "same"), Some(vec![a, b]));
    cache.remove(a);
    assert_eq!(members(&cache, "same"), Some(vec![b]));
    cache.remove(b);
    assert_eq!(members(&cache, "same"), None);
    // the name stays in the pool, which only grows
    assert_eq!(cache.pool().search_exact(b"\0same\0"), vec!["same"]);
}

#[test]
fn index_and_arena_stay_in_step() {
    let mut cache = SearchCache::new();
    let names = ["a", "b", "c", "a", "b", "a", "d"];
    let mut live: Vec<(usize, &str)> = Vec::new();
    for round in 0..5 {
        for name in names {
            live.push((cache.insert(name, None, FileType::File, None), name));
        }
        for _ in 0..(3 + round) {
            let (index, _) = live.remove(live.len() / 2);
            assert!(cache.remove(index).is_some());
        }
        for name in ["a", "b", "c", "d", "e"] {
            let mut expected: Vec<usize> =
                live.iter().filter(|(_, n)| *n == name).map(|(i, _)| *i).collect();
            expected.sort();
            let expected = if expected.is_empty() { None } else { Some(expected) };
            assert_eq!(members(&cache, name), expected);
        }
        for (index, name) in &live {
            assert_eq!(cache.name_of(*index), Some(*name));
        }
    }
}

#[test]
fn into_persistent_keeps_records_and_names() {
    let mut cache = SearchCache::new();
    let b = cache.insert("b", None, FileType::File, None);
    let a = cache.insert("a", None, FileType::Dir, None);
    let b2 = cache.insert("b", Some(a), FileType::File, None);
    let record = *cache.get(b2).unwrap();
    let storage = cache.into_persistent();
    assert_eq!(
        storage.name_index,
        vec![("a".to_string(), vec![a]), ("b".to_string(), vec![b, b2])]
    );
    assert_eq!(storage.slab.get(b2), Some(&record));
    assert_eq!(storage.slab.indices(), vec![b, a, b2]);
}

#[test]
fn arena_goes_to_slots_and_back() {
    let mut arena: NodeArena<NodeRecord> = NodeArena::new();
    let record = |name| NodeRecord { name, parent: None, file_type: FileType::File, metadata: None };
    let i0 = arena.insert(record(1));
    let i1 = arena.insert(record(2));
    let i2 = arena.insert(record(3));
    arena.remove(i1);
    let slots = arena.into_slots();
    assert_eq!(slots, vec![Some(record(1)), None, Some(record(3))]);
    let mut back = NodeArena::from_slots(slots);
    assert_eq!(back.get(i0), Some(&record(1)));
    assert_eq!(back.get(i1), None);
    assert_eq!(back.get(i2), Some(&record(3)));
    assert_eq!(back.insert(record(4)), i1);
    assert_eq!(back.insert(record(5)), 3);
    let empty: NodeArena<u8> = NodeArena::from_slots(vec![None, None]);
    assert!(empty.is_empty());
}

#[test]
fn remove_named_takes_out_every_record_of_the_name() {
    let mut cache = SearchCache::new();
    let a = cache.insert("a", None, FileType::File, None);
    let b = cache.insert("b", None, FileType::File, None);
    let a2 = cache.insert("a", None, FileType::File, None);
    assert_eq!(cache.remove_named("a"), 2);
    assert_eq!(cache.get(a), None);
    assert_eq!(cache.get(a2), None);
    assert_eq!(cache.indices(), vec![b]);
    assert_eq!(members(&cache, "a"), None);
    assert_eq!(members(&cache, "b"), Some(vec![b]));
    assert_eq!(cache.remove_named("a"), 0);
    assert_eq!(cache.remove_named("zzz"), 0);
}

#[test]
fn snapshot_round_trip() {
    let mut cache = SearchCache::new();
    let b = cache.insert("b", None, FileType::File, Some(NodeMetadata::new(Some(1), None, 7)));
    let a = cache.insert("a", None, FileType::Dir, None);
    let gone = cache.insert("gone", Some(a), FileType::File, None);
    let b2 = cache.insert("b", Some(a), FileType::Symlink, None);
    cache.remove(gone);
    let before: Vec<NodeRecord> =
        cache.indices().iter().map(|i| *cache.get(*i).unwrap()).collect();

    let restored = SearchCache::from_persistent(cache.into_persistent()).unwrap();
    assert_eq!(restored.indices(), vec![b, a, b2]);
    for (index, record) in restored.indices().iter().zip(&before) {
        let after = restored.get(*index).unwrap();
        assert_eq!(
            (after.parent, after.file_type, after.metadata),
            (record.parent, record.file_type, record.metadata)
        );
    }
    assert_eq!(restored.name_of(b), Some("b"));
    assert_eq!(restored.name_of(a), Some("a"));
    assert_eq!(restored.name_of(b2), Some("b"));
    assert_eq!(members(&restored, "b"), Some(vec![b, b2]));
    assert_eq!(members(&restored, "gone"), None);
    // the pool is a fresh one: a leading guard, and each name once
    assert_eq!(restored.pool().len(), 1 + 2 + 2);
}

fn storage(names: Vec<(&str, Vec<usize>)>) -> PersistentStorage {
    let record = |name| NodeRecord { name, parent: None, file_type: FileType::File, metadata: None };
    PersistentStorage {
        slab: NodeArena::from_slots(vec![Some(record(0)), None, Some(record(0))]),
        name_index: names.into_iter().map(|(name, list)| (name.to_string(), list)).collect(),
    }
}

#[test]
fn snapshot_that_is_not_one_of_an_index_is_refused() {
    let ok = SearchCache::from_persistent(storage(vec![("x", vec![2]), ("y", vec![0])]));
    assert_eq!(ok.unwrap().name_of(2), Some("x"));
    let error = |names| SearchCache::from_persistent(storage(names)).err();
    assert_eq!(error(vec![("x\0y", vec![0, 2])]), Some(RestoreError::BadName));
    assert_eq!(error(vec![("x", vec![0, 1, 2])]), Some(RestoreError::UnknownIndex));
    assert_eq!(error(vec![("x", vec![0, 2, 3])]), Some(RestoreError::UnknownIndex));
    assert_eq!(error(vec![("x", vec![0, 2]), ("y", vec![2])]), Some(RestoreError::ListedTwice));
    assert_eq!(error(vec![("x", vec![0])]), Some(RestoreError::Unnamed));
    assert_eq!(error(vec![]), Some(RestoreError::Unnamed));
    // the same name in two entries is one name
    let twice = SearchCache::from_persistent(storage(vec![("x", vec![2]), ("x", vec![0])]));
    assert_eq!(members(&twice.unwrap(), "x"), Some(vec![0, 2]));
}

#[test]
fn new_cache_holds_the_leading_guard_alone() {
    let cache = SearchCache::new();
    assert_eq!(cache.pool().len(), 1);
    assert_eq!(cache.pool().get(0), (0, ""));
    assert!(cache.indices().is_empty());
    assert_eq!(members(&cache, ""), None);
    assert!(cache.into_persistent().name_index.is_empty());
}

#[test]
fn the_first_defect_of_a_snapshot_is_the_one_reported() {
    let error = |names| SearchCache::from_persistent(storage(names)).err();
    // a bad name comes before what its list holds, and after the lists before it
    assert_eq!(error(vec![("x\0", vec![7])]), Some(RestoreError::BadName));
    assert_eq!(error(vec![("x", vec![7]), ("y\0", vec![0])]), Some(RestoreError::UnknownIndex));
    assert_eq!(error(vec![("x", vec![0, 0, 7])]), Some(RestoreError::ListedTwice));
    assert_eq!(error(vec![("x", vec![0, 7, 0])]), Some(RestoreError::UnknownIndex));
    // a record without a name is looked for last
    assert_eq!(error(vec![("x", vec![0]), ("y\0", vec![])]), Some(RestoreError::BadName));
}

fn path(text: &str) -> Vec<String> {
    text.split('/').filter(|part| !part.is_empty()).map(String::from).collect()
}

#[test]
fn file_is_created_and_deleted_at_its_path() {
    let mut cache = SearchCache::new();
    // the watched root, and a file of the same name elsewhere
    let root = cache.insert_path(&path("x"), FileType::Dir, None).unwrap();
    let other = cache.insert_path(&path("y"), FileType::Dir, None).unwrap();
    let twin = cache.insert_path(&path("y/a.txt"), FileType::File, None).unwrap();

    let size = Some(NodeMetadata::new(None, None, 100));
    let file = cache.insert_path(&path("x/a.txt"), FileType::File, size).unwrap();
    let record = *cache.get(file).unwrap();
    assert_eq!(record.parent, Some(root));
    assert_eq!(record.metadata.unwrap().size, 100);
    assert_eq!(cache.name_of(file), Some("a.txt"));
    assert_eq!(members(&cache, "a.txt"), Some(vec![twin, file]));
    assert_eq!(cache.find_path(&path("x/a.txt")), Some(file));
    assert_eq!(cache.find_path(&path("y/a.txt")), Some(twin));

    assert_eq!(cache.remove_path(&path("x/a.txt")), Some((file, record)));
    assert_eq!(cache.get(file), None);
    assert_eq!(cache.find_path(&path("x/a.txt")), None);
    assert_eq!(members(&cache, "a.txt"), Some(vec![twin]));
    assert_eq!(cache.remove_path(&path("x/a.txt")), None);
    assert_eq!(cache.indices(), vec![root, other, twin]);

    cache.remove_path(&path("y/a.txt"));
    assert_eq!(members(&cache, "a.txt"), None);
}

#[test]
fn paths_are_followed_from_the_root_down() {
    let mut cache = SearchCache::new();
    let a = cache.insert_path(&path("a"), FileType::Dir, None).unwrap();
    let ab = cache.insert_path(&path("a/b"), FileType::Dir, None).unwrap();
    let abc = cache.insert_path(&path("a/b/c"), FileType::File, None).unwrap();
    assert_eq!(cache.find_path(&path("a")), Some(a));
    assert_eq!(cache.find_path(&path("a/b")), Some(ab));
    assert_eq!(cache.find_path(&path("a/b/c")), Some(abc));
    assert_eq!(cache.find_path(&path("b")), None);
    assert_eq!(cache.find_path(&path("b/c")), None);
    assert_eq!(cache.find_path(&path("a/c")), None);
    assert_eq!(cache.find_path(&path("a/b/c/d")), None);
    assert_eq!(cache.find_path(&path("")), None);
    assert!(cache.is_at(abc, &path("a/b/c"), 3));
    assert!(!cache.is_at(abc, &path("a/b/c"), 2));
    assert!(cache.is_at(ab, &path("a/b/c"), 2));
    assert_eq!(cache.find_prefix(&path("a/b/zzz"), 2), Some(ab));

    // nothing is stored where the path before the last name leads nowhere
    let before = cache.indices();
    assert_eq!(cache.insert_path(&path("nowhere/file"), FileType::File, None), None);
    assert_eq!(cache.insert_path(&path(""), FileType::File, None), None);
    assert_eq!(cache.insert_path(&vec!["a".to_string(), "b\0".to_string()], FileType::File, None), None);
    assert_eq!(cache.indices(), before);

    // of two records at one path the first is found
    let again = cache.insert_path(&path("a/b"), FileType::Dir, None).unwrap();
    assert!(ab < again);
    assert_eq!(cache.find_path(&path("a/b")), Some(ab));
    cache.remove_path(&path("a/b"));
    assert_eq!(cache.find_path(&path("a/b")), Some(again));
}

#[test]
fn a_folder_is_taken_out_with_all_below_it() {
    let mut cache = SearchCache::new();
    let root = cache.insert_path(&path("r"), FileType::Dir, None).unwrap();
    let d = cache.insert_path(&path("r/d"), FileType::Dir, None).unwrap();
    let kept = cache.insert_path(&path("r/kept"), FileType::File, None).unwrap();
    let f = cache.insert_path(&path("r/d/f"), FileType::File, None).unwrap();
    let e = cache.insert_path(&path("r/d/e"), FileType::Dir, None).unwrap();
    let g = cache.insert_path(&path("r/d/e/g"), FileType::File, None).unwrap();
    assert!(cache.is_below(g, d, 3));
    assert!(cache.is_below(g, d, 2));
    assert!(!cache.is_below(g, d, 1));
    assert!(cache.is_below(d, d, 0));
    assert!(!cache.is_below(kept, d, 10));
    assert!(!cache.is_below(d, g, 10));
    assert!(!cache.is_below(99, d, 10));

    cache.remove_subtree(d);
    assert_eq!(cache.indices(), vec![root, kept]);
    for index in [d, f, e, g] {
        assert_eq!(cache.get(index), None);
    }
    assert_eq!(members(&cache, "f"), None);
    assert_eq!(members(&cache, "kept"), Some(vec![kept]));
    assert_eq!(cache.find_path(&path("r/d/e/g")), None);

    // an index that is not in use takes nothing out
    cache.remove_subtree(d);
    assert_eq!(cache.indices(), vec![root, kept]);
    cache.remove_subtree(root);
    assert!(cache.indices().is_empty());
}
