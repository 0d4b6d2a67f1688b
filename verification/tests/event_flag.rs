use cardinal::event_flag::{
    classify, AbstractEvent, EventFlag, EventType, MacEventFlag, ScanType, CLONED,
    EVENT_IDS_WRAPPED, HISTORY_DONE, IS_HARDLINK, ITEM_CHANGE_OWNER, ITEM_CREATED,
    ITEM_FINDER_INFO_MOD, ITEM_INODE_META_MOD, ITEM_IS_DIR, ITEM_IS_FILE, ITEM_IS_SYMLINK,
    ITEM_MODIFIED, ITEM_REMOVED, ITEM_RENAMED, ITEM_XATTR_MOD, KERNEL_DROPPED, MOUNT,
    MUST_SCAN_SUB_DIRS, NONE, OWN_EVENT, ROOT_CHANGED, UNMOUNT, USER_DROPPED,
};

fn flags(bits: u32) -> MacEventFlag {
    MacEventFlag::from_bits_retain(bits)
}

fn outcome(bits: u32, is_dir: bool) -> (Option<EventFlag>, ScanType) {
    let event = classify(flags(bits), is_dir).unwrap();
    (event.kind, event.scan)
}

#[test]
fn no_recognized_bit() {
    assert_eq!(outcome(NONE, false), (None, ScanType::SingleNode));
    assert_eq!(outcome(NONE, true), (None, ScanType::Folder));
    assert_eq!(outcome(0x8000_0000, true), (None, ScanType::Folder));
}

#[test]
fn lost_events_ask_for_rescan() {
    for bit in [MUST_SCAN_SUB_DIRS, USER_DROPPED, KERNEL_DROPPED] {
        assert_eq!(outcome(bit, false), (None, ScanType::ReScan));
        assert_eq!(outcome(bit | ITEM_CREATED | ITEM_IS_DIR, true), (None, ScanType::ReScan));
        assert_eq!(outcome(bit | HISTORY_DONE | UNMOUNT, false), (None, ScanType::ReScan));
    }
}

#[test]
fn bookkeeping_events_are_nop() {
    assert_eq!(outcome(EVENT_IDS_WRAPPED, false), (None, ScanType::Nop));
    assert_eq!(outcome(HISTORY_DONE, true), (None, ScanType::Nop));
    assert_eq!(outcome(HISTORY_DONE | ROOT_CHANGED, true), (None, ScanType::Nop));
}

#[test]
fn root_changed_asks_for_rescan() {
    assert_eq!(outcome(ROOT_CHANGED, false), (None, ScanType::ReScan));
    assert_eq!(outcome(ROOT_CHANGED | MOUNT, true), (None, ScanType::ReScan));
}

#[test]
fn mount_and_unmount_scan_the_folder() {
    assert_eq!(outcome(MOUNT, false), (None, ScanType::Folder));
    assert_eq!(outcome(MOUNT | ITEM_IS_DIR, true), (None, ScanType::Folder));
    assert_eq!(outcome(UNMOUNT, true), (Some(EventFlag::Delete), ScanType::Folder));
    assert_eq!(outcome(UNMOUNT | MOUNT, false), (Some(EventFlag::Delete), ScanType::Folder));
    assert_eq!(outcome(UNMOUNT | ITEM_CREATED, false), (Some(EventFlag::Delete), ScanType::Folder));
}

#[test]
fn created_item_is_a_single_node() {
    assert_eq!(outcome(ITEM_CREATED, false), (Some(EventFlag::Create), ScanType::SingleNode));
    assert_eq!(
        outcome(ITEM_CREATED | ITEM_IS_DIR, true),
        (Some(EventFlag::Create), ScanType::SingleNode)
    );
    assert_eq!(
        outcome(ITEM_CREATED | ITEM_REMOVED, false),
        (Some(EventFlag::Create), ScanType::SingleNode)
    );
}

#[test]
fn removed_item() {
    assert_eq!(outcome(ITEM_REMOVED, false), (Some(EventFlag::Delete), ScanType::SingleNode));
    assert_eq!(
        outcome(ITEM_REMOVED | ITEM_IS_DIR, true),
        (Some(EventFlag::Delete), ScanType::Folder)
    );
}

#[test]
fn modifications() {
    let modify = Some(EventFlag::Modify);
    assert_eq!(outcome(ITEM_INODE_META_MOD, true), (modify, ScanType::SingleNode));
    assert_eq!(outcome(ITEM_RENAMED, false), (modify, ScanType::SingleNode));
    assert_eq!(outcome(ITEM_RENAMED, true), (modify, ScanType::Folder));
    assert_eq!(outcome(ITEM_MODIFIED, false), (modify, ScanType::SingleNode));
    assert_eq!(outcome(ITEM_MODIFIED, true), (modify, ScanType::SingleNode));
    for bit in [ITEM_FINDER_INFO_MOD, ITEM_CHANGE_OWNER, ITEM_XATTR_MOD] {
        assert_eq!(outcome(bit, true), (modify, ScanType::SingleNode));
        assert_eq!(outcome(bit | CLONED, true), (modify, ScanType::SingleNode));
    }
    assert_eq!(outcome(CLONED, false), (modify, ScanType::SingleNode));
    assert_eq!(outcome(CLONED, true), (modify, ScanType::Folder));
    assert_eq!(outcome(CLONED | OWN_EVENT, true), (modify, ScanType::Folder));
    // inode metadata comes before rename in the table
    assert_eq!(outcome(ITEM_RENAMED | ITEM_INODE_META_MOD, true), (modify, ScanType::SingleNode));
}

#[test]
fn flags_outside_the_vocabulary() {
    for bits in [ITEM_IS_FILE, ITEM_IS_DIR, OWN_EVENT, IS_HARDLINK | ITEM_IS_SYMLINK] {
        let f = flags(bits);
        assert_eq!(classify(f, false), Err(f));
        assert_eq!(classify(f, true), Err(f));
        assert!(!f.is_in_vocabulary());
        assert_eq!(EventFlag::try_from(f), Err(f));
    }
    assert!(flags(ITEM_CREATED | ITEM_IS_FILE).is_in_vocabulary());
    assert!(flags(NONE).is_in_vocabulary());
}

#[test]
fn scan_type_takes_the_directory_from_the_flags() {
    assert_eq!(flags(ITEM_REMOVED | ITEM_IS_DIR).scan_type(), ScanType::Folder);
    assert_eq!(flags(ITEM_REMOVED | ITEM_IS_FILE).scan_type(), ScanType::SingleNode);
    assert_eq!(flags(ITEM_CREATED | ITEM_IS_FILE).scan_type(), ScanType::SingleNode);
    // a symbolic link to a directory is no directory
    assert_eq!(flags(ITEM_REMOVED | ITEM_IS_DIR | ITEM_IS_SYMLINK).scan_type(), ScanType::SingleNode);
    assert_eq!(flags(MUST_SCAN_SUB_DIRS | ITEM_IS_DIR).scan_type(), ScanType::ReScan);
    assert_eq!(flags(HISTORY_DONE).scan_type(), ScanType::Nop);
    assert_eq!(flags(NONE).scan_type(), ScanType::SingleNode);
}

#[test]
fn event_type_priority() {
    assert_eq!(flags(NONE).event_type(), EventType::Unknown);
    assert_eq!(flags(ITEM_IS_FILE).event_type(), EventType::File);
    assert_eq!(flags(ITEM_IS_DIR | ITEM_IS_FILE).event_type(), EventType::Dir);
    assert_eq!(flags(ITEM_IS_SYMLINK | ITEM_IS_DIR).event_type(), EventType::Symlink);
    assert_eq!(flags(IS_HARDLINK | ITEM_IS_SYMLINK).event_type(), EventType::Hardlink);
    assert_eq!(flags(0x0020_0000 | ITEM_IS_FILE).event_type(), EventType::Hardlink);
    assert_eq!(flags(ITEM_CREATED).event_type(), EventType::Unknown);
}

#[test]
fn kind_of_change() {
    assert_eq!(EventFlag::try_from(flags(ITEM_CREATED)), Ok(EventFlag::Create));
    assert_eq!(EventFlag::try_from(flags(ITEM_REMOVED | ITEM_IS_DIR)), Ok(EventFlag::Delete));
    assert_eq!(EventFlag::try_from(flags(UNMOUNT)), Ok(EventFlag::Delete));
    assert_eq!(EventFlag::try_from(flags(ITEM_RENAMED)), Ok(EventFlag::Modify));
    assert_eq!(EventFlag::try_from(flags(CLONED)), Ok(EventFlag::Modify));
    for bits in [MUST_SCAN_SUB_DIRS, EVENT_IDS_WRAPPED, MOUNT, ROOT_CHANGED, NONE] {
        assert_eq!(EventFlag::try_from(flags(bits)), Err(flags(bits)));
    }
}

#[test]
fn contains_and_bits() {
    let f = flags(ITEM_CREATED | ITEM_IS_FILE);
    assert_eq!(f.to_bits(), 0x0001_0100);
    assert!(f.contains(flags(ITEM_CREATED)));
    assert!(f.contains(flags(NONE)));
    assert!(!f.contains(flags(ITEM_CREATED | ITEM_IS_DIR)));
    assert!(f.intersects(ITEM_CREATED | ITEM_IS_DIR));
    assert!(!f.intersects(ITEM_IS_DIR));
}

#[test]
fn create_then_delete_of_a_file() {
    let created = classify(flags(ITEM_CREATED | ITEM_IS_FILE), false);
    assert_eq!(
        created,
        Ok(AbstractEvent { kind: Some(EventFlag::Create), scan: ScanType::SingleNode })
    );
    let removed = classify(flags(ITEM_REMOVED | ITEM_IS_FILE), false);
    assert_eq!(
        removed,
        Ok(AbstractEvent { kind: Some(EventFlag::Delete), scan: ScanType::SingleNode })
    );
}
