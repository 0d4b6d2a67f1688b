use cardinal::arena::NodeArena;

#[test]
fn insert_get_remove() {
    let mut arena: NodeArena<&str> = NodeArena::new();
    assert!(arena.is_empty());
    let a = arena.insert("a");
    let b = arena.insert("b");
    assert_ne!(a, b);
    assert_eq!(arena.get(a), Some(&"a"));
    assert_eq!(arena.get(b), Some(&"b"));
    assert!(!arena.is_empty());
    assert_eq!(arena.remove(a), Some("a"));
    assert_eq!(arena.get(a), None);
    assert_eq!(arena.remove(a), None);
    assert_eq!(arena.get(b), Some(&"b"));
    assert_eq!(arena.remove(b), Some("b"));
    assert!(arena.is_empty());
    assert_eq!(arena.get(17), None);
    assert_eq!(arena.remove(17), None);
}

#[test]
fn index_is_stable_until_removed() {
    let mut arena: NodeArena<u32> = NodeArena::new();
    let kept = arena.insert(7);
    let mut others = Vec::new();
    for round in 0..50u32 {
        for i in 0..10u32 {
            others.push(arena.insert(round * 100 + i));
        }
        for _ in 0..7 {
            let gone = others.swap_remove(0);
            assert_ne!(gone, kept);
            assert!(arena.remove(gone).is_some());
        }
        assert_eq!(arena.get(kept), Some(&7));
    }
}

#[test]
fn vacated_slot_is_used_again() {
    let mut arena: NodeArena<char> = NodeArena::new();
    let a = arena.insert('a');
    let b = arena.insert('b');
    let c = arena.insert('c');
    assert_eq!((a, b, c), (0, 1, 2));
    arena.remove(b);
    arena.remove(a);
    // the slot vacated last goes out first
    assert_eq!(arena.insert('d'), a);
    assert_eq!(arena.insert('e'), b);
    assert_eq!(arena.insert('f'), 3);
    assert_eq!(arena.indices(), vec![0, 1, 2, 3]);
}

#[test]
fn indices_lists_the_records_in_use() {
    let mut arena: NodeArena<u8> = NodeArena::new();
    for i in 0..6 {
        arena.insert(i);
    }
    arena.remove(1);
    arena.remove(4);
    assert_eq!(arena.indices(), vec![0, 2, 3, 5]);
}

#[test]
fn get_mut_changes_the_record_in_place() {
    let mut arena: NodeArena<String> = NodeArena::new();
    let a = arena.insert(String::from("a"));
    let b = arena.insert(String::from("b"));
    arena.get_mut(a).unwrap().push('!');
    assert_eq!(arena.get(a).unwrap(), "a!");
    assert_eq!(arena.get(b).unwrap(), "b");
    arena.remove(a);
    assert!(arena.get_mut(a).is_none());
    assert!(arena.get_mut(99).is_none());
}
