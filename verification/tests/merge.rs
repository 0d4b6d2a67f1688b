use cardinal::event_flag::{
    MacEventFlag, CLONED, HISTORY_DONE, ITEM_CREATED, ITEM_IS_DIR, ITEM_IS_FILE, ITEM_MODIFIED,
    ITEM_REMOVED, ITEM_RENAMED, MOUNT, MUST_SCAN_SUB_DIRS, NONE, OWN_EVENT, UNMOUNT,
};
use cardinal::merge::{last_seen, merge_plan, MergePlan};
use cardinal::span::is_guard_free;
use cardinal::walk::{node_kind, Node};
use cardinal::node::FileType;

fn plan(bits: u32) -> Result<MergePlan, MacEventFlag> {
    merge_plan(MacEventFlag::from_bits_retain(bits))
}

#[test]
fn plans_follow_the_classification() {
    assert_eq!(plan(HISTORY_DONE), Ok(MergePlan::Advance));
    assert_eq!(plan(MUST_SCAN_SUB_DIRS | ITEM_CREATED), Ok(MergePlan::ReScan));
    assert_eq!(plan(ITEM_CREATED | ITEM_IS_FILE), Ok(MergePlan::Refresh { folder: false }));
    assert_eq!(plan(ITEM_CREATED | ITEM_IS_DIR), Ok(MergePlan::Refresh { folder: false }));
    assert_eq!(plan(ITEM_MODIFIED | ITEM_IS_FILE), Ok(MergePlan::Refresh { folder: false }));
    assert_eq!(plan(ITEM_RENAMED | ITEM_IS_DIR), Ok(MergePlan::Refresh { folder: true }));
    assert_eq!(plan(CLONED | ITEM_IS_DIR), Ok(MergePlan::Refresh { folder: true }));
    assert_eq!(plan(MOUNT), Ok(MergePlan::Refresh { folder: true }));
    assert_eq!(plan(NONE), Ok(MergePlan::Refresh { folder: false }));
    assert_eq!(plan(ITEM_REMOVED | ITEM_IS_FILE), Ok(MergePlan::Forget { folder: false }));
    assert_eq!(plan(ITEM_REMOVED | ITEM_IS_DIR), Ok(MergePlan::Forget { folder: true }));
    assert_eq!(plan(UNMOUNT), Ok(MergePlan::Forget { folder: true }));
}

#[test]
fn flags_outside_the_vocabulary_are_not_passed_over() {
    for bits in [OWN_EVENT, ITEM_IS_FILE, ITEM_IS_DIR] {
        assert_eq!(plan(bits), Err(MacEventFlag::from_bits_retain(bits)));
    }
}

#[test]
fn event_ids_only_move_on() {
    assert_eq!(last_seen(0, 7), 7);
    assert_eq!(last_seen(7, 3), 7);
    assert_eq!(last_seen(7, 7), 7);
    assert_eq!(last_seen(u64::MAX, 0), u64::MAX);
}

#[test]
fn names_with_a_guard_byte_are_told_apart() {
    assert!(is_guard_free(b"a.txt"));
    assert!(is_guard_free(b""));
    assert!(!is_guard_free(b"a\0b"));
    assert!(!is_guard_free(b"\0"));
}

#[test]
fn kind_of_a_walked_node() {
    let leaf = Node { children: vec![], name: "leaf".to_string(), metadata: None };
    assert_eq!(node_kind(&leaf), FileType::File);
    let dir = Node { children: vec![leaf], name: "dir".to_string(), metadata: None };
    assert_eq!(node_kind(&dir), FileType::Dir);
}
