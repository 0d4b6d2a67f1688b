use cardinal::arena::NodeArena;
use cardinal::event_flag::{
    classify, EventFlag, MacEventFlag, ScanType, ITEM_CREATED, ITEM_IS_FILE, ITEM_REMOVED,
};
use cardinal::index_set::IndexSet;
use cardinal::name_index::NameIndex;
use cardinal::namepool::NamePool;
use cardinal::node::{FileType, NodeMetadata, NodeRecord};

fn members(index: &NameIndex, pool: &NamePool, name: &str) -> Option<Vec<usize>> {
    index.get(pool, name).map(|set| set.to_sorted_vec())
}

#[test]
fn add_and_remove_index() {
    let mut pool = NamePool::new();
    let mut index = NameIndex::new();
    assert!(index.is_empty());
    index.add_index(&mut pool, "b.txt", 2);
    index.add_index(&mut pool, "a.txt", 1);
    index.add_index(&mut pool, "b.txt", 5);
    assert_eq!(index.len(), 2);
    assert_eq!(members(&index, &pool, "a.txt"), Some(vec![1]));
    assert_eq!(members(&index, &pool, "b.txt"), Some(vec![2, 5]));
    assert_eq!(members(&index, &pool, "c.txt"), None);
    assert_eq!(members(&index, &pool, "a"), None);

    assert!(!index.remove_index(&pool, "b.txt", 9));
    assert!(!index.remove_index(&pool, "zzz", 2));
    assert!(index.remove_index(&pool, "b.txt", 2));
    assert_eq!(members(&index, &pool, "b.txt"), Some(vec![5]));
    assert!(index.remove_index(&pool, "b.txt", 5));
    assert_eq!(members(&index, &pool, "b.txt"), None);
    assert_eq!(index.len(), 1);
}

#[test]
fn a_name_is_interned_once() {
    let mut pool = NamePool::new();
    let mut index = NameIndex::new();
    index.add_index(&mut pool, "name", 1);
    let len = pool.len();
    assert_eq!(len, 1 + 4 + 1);
    index.add_index(&mut pool, "name", 2);
    index.add_index(&mut pool, "name", 1);
    assert_eq!(pool.len(), len);
    assert_eq!(members(&index, &pool, "name"), Some(vec![1, 2]));
}

#[test]
fn no_key_maps_to_an_empty_set() {
    let mut pool = NamePool::new();
    let mut index = NameIndex::new();
    let names = ["x", "y", "z", "x", "y", "x"];
    for (i, name) in names.iter().enumerate() {
        index.add_index(&mut pool, name, i);
    }
    for (i, name) in names.iter().enumerate() {
        assert!(index.remove_index(&pool, name, i));
        for (text, set) in index.into_persistent(&pool) {
            assert!(!set.is_empty(), "{text} is left with no record");
        }
    }
    assert!(index.is_empty());
    assert_eq!(index.len(), 0);
}

#[test]
fn remove_takes_the_whole_name_out() {
    let mut pool = NamePool::new();
    let mut index = NameIndex::new();
    index.add_index(&mut pool, "a", 1);
    index.add_index(&mut pool, "a", 2);
    index.add_index(&mut pool, "b", 3);
    let taken = index.remove(&pool, "a").unwrap();
    assert_eq!(taken.to_sorted_vec(), vec![1, 2]);
    assert_eq!(taken.len(), 2);
    assert!(taken.contains(1) && !taken.contains(3));
    assert!(index.remove(&pool, "a").is_none());
    assert_eq!(members(&index, &pool, "b"), Some(vec![3]));
}

#[test]
fn all_indices_lists_every_set() {
    let mut pool = NamePool::new();
    let mut index = NameIndex::new();
    index.add_index(&mut pool, "b", 4);
    index.add_index(&mut pool, "a", 9);
    index.add_index(&mut pool, "b", 1);
    let all = index.all_indices();
    assert_eq!(all.len(), 3);
    // the names come in their order, the members of a set in no promised one
    assert_eq!(all[0], 9);
    let mut rest = all[1..].to_vec();
    rest.sort();
    assert_eq!(rest, vec![1, 4]);
}

#[test]
fn persistent_form_is_ordered_by_name() {
    let mut pool = NamePool::new();
    let mut index = NameIndex::new();
    for (name, i) in [("b", 1), ("ab", 2), ("a", 3), ("世界", 4), ("B", 5), ("ab", 6)] {
        index.add_index(&mut pool, name, i);
    }
    let persisted = index.into_persistent(&pool);
    let expected: Vec<(String, Vec<usize>)> = vec![
        ("B".to_string(), vec![5]),
        ("a".to_string(), vec![3]),
        ("ab".to_string(), vec![2, 6]),
        ("b".to_string(), vec![1]),
        ("世界".to_string(), vec![4]),
    ];
    assert_eq!(persisted, expected);
}

#[test]
fn persistence_round_trip() {
    let mut pool = NamePool::new();
    let mut index = NameIndex::new();
    for (name, i) in [("b", 1), ("a", 2), ("b", 3), ("c", 4)] {
        index.add_index(&mut pool, name, i);
    }
    let persisted = index.into_persistent(&pool);

    let mut fresh = NamePool::new();
    let restored = NameIndex::construct_name_pool(&mut fresh, &persisted);
    assert_eq!(restored.into_persistent(&fresh), persisted);
    assert_eq!(members(&restored, &fresh, "b"), Some(vec![1, 3]));
    // each name is interned once in the fresh pool
    assert_eq!(fresh.len(), 1 + 3 * 2);
}

#[test]
fn construct_name_pool_merges_repeated_names_and_skips_empty_ones() {
    let mut pool = NamePool::new();
    let data = vec![
        ("x".to_string(), vec![1, 2]),
        ("gone".to_string(), vec![]),
        ("x".to_string(), vec![2, 3]),
    ];
    let index = NameIndex::construct_name_pool(&mut pool, &data);
    assert_eq!(index.len(), 1);
    assert_eq!(members(&index, &pool, "x"), Some(vec![1, 2, 3]));
    assert_eq!(members(&index, &pool, "gone"), None);
}

fn record(name: usize) -> NodeRecord {
    NodeRecord { name, parent: None, file_type: FileType::File, metadata: None }
}

#[test]
fn from_slab_lists_each_record_under_its_name() {
    let mut pool = NamePool::new();
    let a = pool.push("a");
    let b = pool.push("b");
    let a_again = pool.push("a");
    let mut arena: NodeArena<NodeRecord> = NodeArena::new();
    let n0 = arena.insert(record(a));
    let n1 = arena.insert(record(b));
    let n2 = arena.insert(record(a_again));
    let n3 = arena.insert(record(b));
    arena.remove(n1);
    let before = pool.len();
    let index = NameIndex::from_slab(&arena, &pool);
    assert_eq!(pool.len(), before);
    // every record of the arena is listed once
    let mut all = index.all_indices();
    all.sort();
    assert_eq!(all, arena.indices());
    assert_eq!(index.len(), 2);
    assert_eq!(members(&index, &pool, "a"), Some(vec![n0, n2]));
    assert_eq!(members(&index, &pool, "b"), Some(vec![n3]));
}

#[test]
fn add_interned_uses_a_name_of_the_pool() {
    let mut pool = NamePool::new();
    let h = pool.push("shared");
    let mut index = NameIndex::new();
    index.add_interned(&pool, h, 4);
    index.add_index(&mut pool, "shared", 5);
    assert_eq!(pool.len(), 8);
    assert_eq!(members(&index, &pool, "shared"), Some(vec![4, 5]));
}

#[test]
fn create_and_delete_of_a_file_end_to_end() {
    let mut pool = NamePool::new();
    let mut arena: NodeArena<NodeRecord> = NodeArena::new();
    let mut index = NameIndex::new();
    let root = pool.push("x");
    let root_index = arena.insert(NodeRecord {
        name: root,
        parent: None,
        file_type: FileType::Dir,
        metadata: None,
    });
    index.add_interned(&pool, root, root_index);

    // /tmp/x/a.txt is created, with 100 bytes
    let created = classify(MacEventFlag::from_bits_retain(ITEM_CREATED | ITEM_IS_FILE), false)
        .unwrap();
    assert_eq!((created.kind, created.scan), (Some(EventFlag::Create), ScanType::SingleNode));
    let handle = pool.push("a.txt");
    assert_eq!(pool.search_exact(b"\0a.txt\0"), vec!["a.txt"]);
    let node = arena.insert(NodeRecord {
        name: handle,
        parent: Some(root_index),
        file_type: FileType::File,
        metadata: Some(NodeMetadata::new(None, None, 100)),
    });
    index.add_interned(&pool, handle, node);
    assert_eq!(arena.indices(), vec![root_index, node]);
    let stored = arena.get(node).unwrap();
    assert_eq!(pool.get(stored.name).1, "a.txt");
    assert_eq!(stored.metadata.unwrap().size, 100);
    assert_eq!(members(&index, &pool, "a.txt"), Some(vec![node]));

    // and deleted
    let removed = classify(MacEventFlag::from_bits_retain(ITEM_REMOVED | ITEM_IS_FILE), false)
        .unwrap();
    assert_eq!((removed.kind, removed.scan), (Some(EventFlag::Delete), ScanType::SingleNode));
    let gone = arena.remove(node).unwrap();
    assert!(index.remove_index(&pool, pool.get(gone.name).1, node));
    assert_eq!(arena.get(node), None);
    assert_eq!(members(&index, &pool, "a.txt"), None);
    assert_eq!(members(&index, &pool, "x"), Some(vec![root_index]));
}

#[test]
fn insert_owned_replaces_a_list() {
    let mut pool = NamePool::new();
    let h = pool.push("n");
    let mut index = NameIndex::new();
    let mut set = IndexSet::new();
    set.insert(4);
    set.insert(3);
    index.insert_owned(&pool, h, set);
    assert_eq!(members(&index, &pool, "n"), Some(vec![3, 4]));
    assert_eq!(index.handle_of(&pool, "n"), Some(h));
    assert_eq!(index.handle_of(&pool, "m"), None);

    let mut other = IndexSet::with_capacity(4);
    other.insert(9);
    index.insert_owned(&pool, h, other);
    assert_eq!(members(&index, &pool, "n"), Some(vec![9]));

    index.insert_owned(&pool, h, IndexSet::new());
    assert_eq!(members(&index, &pool, "n"), None);
    assert!(index.is_empty());
}

#[test]
fn index_set_behaves_as_a_set() {
    let mut set = IndexSet::new();
    assert!(set.is_empty());
    assert_eq!(set.len(), 0);
    assert!(set.insert(5));
    assert!(!set.insert(5));
    assert!(set.insert(2));
    assert!(set.contains(5) && set.contains(2) && !set.contains(3));
    assert_eq!(set.len(), 2);
    assert_eq!(set.to_sorted_vec(), vec![2, 5]);
    assert!(!set.remove(3));
    assert!(set.remove(5));
    assert!(!set.remove(5));
    assert_eq!(set.to_sorted_vec(), vec![2]);
    assert!(!set.is_empty());
    assert!(set.remove(2));
    assert!(set.is_empty());
}

#[test]
fn new_index_has_no_entry() {
    let pool = NamePool::new();
    let index = NameIndex::new();
    assert_eq!(index.len(), 0);
    assert!(index.is_empty());
    assert!(index.all_indices().is_empty());
    assert!(index.into_persistent(&pool).is_empty());
    assert_eq!(members(&index, &pool, ""), None);
}
