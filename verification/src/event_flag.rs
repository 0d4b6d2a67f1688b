//! Change-notification flags and their classification.
//!
//! A notification carries a 32-bit set of flags. Several flags may be set at
//! once, so the classification is an ordered table of rules: the first rule
//! that fires decides what has to be scanned again and what kind of change
//! the notification stands for.

use vstd::prelude::*;

verus! {

pub const NONE: u32 = 0x0000_0000;

pub const MUST_SCAN_SUB_DIRS: u32 = 0x0000_0001;

pub const USER_DROPPED: u32 = 0x0000_0002;

pub const KERNEL_DROPPED: u32 = 0x0000_0004;

pub const EVENT_IDS_WRAPPED: u32 = 0x0000_0008;

pub const HISTORY_DONE: u32 = 0x0000_0010;

pub const ROOT_CHANGED: u32 = 0x0000_0020;

pub const MOUNT: u32 = 0x0000_0040;

pub const UNMOUNT: u32 = 0x0000_0080;

pub const ITEM_CREATED: u32 = 0x0000_0100;

pub const ITEM_REMOVED: u32 = 0x0000_0200;

pub const ITEM_INODE_META_MOD: u32 = 0x0000_0400;

pub const ITEM_RENAMED: u32 = 0x0000_0800;

pub const ITEM_MODIFIED: u32 = 0x0000_1000;

pub const ITEM_FINDER_INFO_MOD: u32 = 0x0000_2000;

pub const ITEM_CHANGE_OWNER: u32 = 0x0000_4000;

pub const ITEM_XATTR_MOD: u32 = 0x0000_8000;

pub const ITEM_IS_FILE: u32 = 0x0001_0000;

pub const ITEM_IS_DIR: u32 = 0x0002_0000;

pub const ITEM_IS_SYMLINK: u32 = 0x0004_0000;

pub const OWN_EVENT: u32 = 0x0008_0000;

pub const IS_HARDLINK: u32 = 0x0010_0000;

pub const IS_LAST_HARDLINK: u32 = 0x0020_0000;

pub const CLONED: u32 = 0x0040_0000;

/// Every bit that has a meaning.
pub const RECOGNIZED: u32 = 0x007f_ffff;

/// The flags of one change notification.
#[derive(Clone, Copy, Debug, PartialEq, Eq, Structural)]
pub struct MacEventFlag {
    bits: u32,
}

/// What kind of file-system object a notification is about.
#[derive(Clone, Copy, Debug, PartialEq, Eq, Structural)]
pub enum EventType {
    Unknown,
    File,
    Dir,
    Symlink,
    Hardlink,
}

/// How much of the tree has to be walked again.
#[derive(Clone, Copy, Debug, PartialEq, Eq, Structural)]
pub enum ScanType {
    SingleNode,
    Folder,
    /// The stream may have lost notifications: reconcile the whole subtree.
    ReScan,
    /// Nothing to walk; only the last seen event id moves on.
    Nop,
}

/// Abstract action of a file system event.
#[derive(Clone, Copy, Debug, PartialEq, Eq, Structural)]
pub enum EventFlag {
    Create,
    Delete,
    Modify,
}

/// What a notification asks for: the kind of change, where the flags tell
/// it, and the extent of the scan.
#[derive(Clone, Copy, Debug, PartialEq, Eq, Structural)]
pub struct AbstractEvent {
    pub kind: Option<EventFlag>,
    pub scan: ScanType,
}

/// One row of the classification table.
#[derive(Clone, Copy, Debug)]
pub struct Rule {
    /// The bits that the row looks at.
    pub mask: u32,
    /// The row fires when none of `mask` is set (`true`), or when at least
    /// one of them is (`false`).
    pub when_absent: bool,
    pub kind: Option<EventFlag>,
    /// The scan when the path is a directory.
    pub on_dir: ScanType,
    /// The scan when it is not.
    pub on_other: ScanType,
}

/// Number of rows in the table.
pub const RULE_COUNT: usize = 13;

/// The rows in the order of their priority.
pub open spec fn table() -> Seq<Rule> {
    seq![
        Rule {
            mask: RECOGNIZED,
            when_absent: true,
            kind: None,
            on_dir: ScanType::Folder,
            on_other: ScanType::SingleNode,
        },
        Rule {
            mask: 0x0000_0007,
            when_absent: false,
            kind: None,
            on_dir: ScanType::ReScan,
            on_other: ScanType::ReScan,
        },
        Rule {
            mask: 0x0000_0018,
            when_absent: false,
            kind: None,
            on_dir: ScanType::Nop,
            on_other: ScanType::Nop,
        },
        Rule {
            mask: ROOT_CHANGED,
            when_absent: false,
            kind: None,
            on_dir: ScanType::ReScan,
            on_other: ScanType::ReScan,
        },
        Rule {
            mask: UNMOUNT,
            when_absent: false,
            kind: Some(EventFlag::Delete),
            on_dir: ScanType::Folder,
            on_other: ScanType::Folder,
        },
        Rule {
            mask: MOUNT,
            when_absent: false,
            kind: None,
            on_dir: ScanType::Folder,
            on_other: ScanType::Folder,
        },
        Rule {
            mask: ITEM_CREATED,
            when_absent: false,
            kind: Some(EventFlag::Create),
            on_dir: ScanType::SingleNode,
            on_other: ScanType::SingleNode,
        },
        Rule {
            mask: ITEM_REMOVED,
            when_absent: false,
            kind: Some(EventFlag::Delete),
            on_dir: ScanType::Folder,
            on_other: ScanType::SingleNode,
        },
        Rule {
            mask: ITEM_INODE_META_MOD,
            when_absent: false,
            kind: Some(EventFlag::Modify),
            on_dir: ScanType::SingleNode,
            on_other: ScanType::SingleNode,
        },
        Rule {
            mask: ITEM_RENAMED,
            when_absent: false,
            kind: Some(EventFlag::Modify),
            on_dir: ScanType::Folder,
            on_other: ScanType::SingleNode,
        },
        Rule {
            mask: ITEM_MODIFIED,
            when_absent: false,
            kind: Some(EventFlag::Modify),
            on_dir: ScanType::SingleNode,
            on_other: ScanType::SingleNode,
        },
        Rule {
            mask: 0x0000_e000,
            when_absent: false,
            kind: Some(EventFlag::Modify),
            on_dir: ScanType::SingleNode,
            on_other: ScanType::SingleNode,
        },
        Rule {
            mask: CLONED,
            when_absent: false,
            kind: Some(EventFlag::Modify),
            on_dir: ScanType::Folder,
            on_other: ScanType::SingleNode,
        },
    ]
}

/// Whether a row applies to a set of flags.
pub open spec fn rule_fires(rule: Rule, bits: u32) -> bool {
    if rule.when_absent {
        bits & rule.mask == 0
    } else {
        bits & rule.mask != 0
    }
}

/// What a row yields.
pub open spec fn rule_outcome(rule: Rule, is_dir: bool) -> AbstractEvent {
    AbstractEvent {
        kind: rule.kind,
        scan: if is_dir {
            rule.on_dir
        } else {
            rule.on_other
        },
    }
}

/// The first row at or after `from` that applies, if any does.
pub open spec fn first_firing(bits: u32, from: int) -> Option<int>
    decreases table().len() - from,
{
    if from < 0 || from >= table().len() {
        None
    } else if rule_fires(table()[from], bits) {
        Some(from)
    } else {
        first_firing(bits, from + 1)
    }
}

/// The classification of a set of flags: the outcome of the first row that
/// applies. `None` where no row applies: such flags are outside the
/// vocabulary.
pub open spec fn classify_spec(bits: u32, is_dir: bool) -> Option<AbstractEvent> {
    match first_firing(bits, 0) {
        Some(i) => Some(rule_outcome(table()[i], is_dir)),
        None => None,
    }
}

/// The kind of object that a set of flags names. Link flags win over the
/// directory flag, which wins over the file flag.
pub open spec fn event_type_spec(bits: u32) -> EventType {
    if bits & 0x0030_0000 != 0 {
        EventType::Hardlink
    } else if bits & ITEM_IS_SYMLINK != 0 {
        EventType::Symlink
    } else if bits & ITEM_IS_DIR != 0 {
        EventType::Dir
    } else if bits & ITEM_IS_FILE != 0 {
        EventType::File
    } else {
        EventType::Unknown
    }
}

/// The scan that a set of flags in the vocabulary asks for, the path taken
/// as a directory exactly when the flags name one.
pub open spec fn scan_type_spec(bits: u32) -> ScanType {
    classify_spec(bits, event_type_spec(bits) == EventType::Dir)->0.scan
}

/// The bits that stand for a change, as opposed to those that describe the
/// object.
pub const EVENT_BITS: u32 = 0x0040_ffff;

/// The first row that applies wins: where row `k` applies and none before
/// it does, the classification is what row `k` yields.
pub proof fn lemma_first_match_wins(bits: u32, is_dir: bool, k: int)
    requires
        0 <= k < table().len(),
        rule_fires(table()[k], bits),
        forall|j: int| 0 <= j < k ==> !rule_fires(#[trigger] table()[j], bits),
    ensures
        classify_spec(bits, is_dir) == Some(rule_outcome(table()[k], is_dir)),
{
    lemma_first_firing_skips(bits, 0, k);
}

proof fn lemma_first_firing_skips(bits: u32, from: int, k: int)
    requires
        0 <= from <= k < table().len(),
        rule_fires(table()[k], bits),
        forall|j: int| from <= j < k ==> !rule_fires(#[trigger] table()[j], bits),
    ensures
        first_firing(bits, from) == Some(k),
    decreases k - from,
{
    if from < k {
        assert(!rule_fires(table()[from], bits));
        lemma_first_firing_skips(bits, from + 1, k);
    }
}

/// No row applies exactly to the flags that describe an object without
/// naming a change: every other set of flags is classified.
pub proof fn lemma_vocabulary(bits: u32, is_dir: bool)
    ensures
        classify_spec(bits, is_dir) is None <==> (bits & RECOGNIZED != 0 && bits & EVENT_BITS
            == 0),
{
    reveal_with_fuel(first_firing, 14);
    assert((bits & 0x007f_ffffu32 != 0 && bits & 0x0040_ffffu32 == 0) <==> (bits & 0x007f_ffffu32
        != 0 && bits & 0x0000_0007u32 == 0 && bits & 0x0000_0018u32 == 0 && bits & 0x0000_0020u32
        == 0 && bits & 0x0000_0080u32 == 0 && bits & 0x0000_0040u32 == 0 && bits & 0x0000_0100u32
        == 0 && bits & 0x0000_0200u32 == 0 && bits & 0x0000_0400u32 == 0 && bits & 0x0000_0800u32
        == 0 && bits & 0x0000_1000u32 == 0 && bits & 0x0000_e000u32 == 0 && bits & 0x0040_0000u32
        == 0)) by (bit_vector);
}

/// A notification that reports lost events asks for a full re-scan,
/// whatever else it reports.
pub proof fn lemma_lost_events_rescan(bits: u32, is_dir: bool)
    requires
        bits & (MUST_SCAN_SUB_DIRS | USER_DROPPED | KERNEL_DROPPED) != 0,
    ensures
        classify_spec(bits, is_dir) == Some(AbstractEvent { kind: None, scan: ScanType::ReScan }),
{
    reveal_with_fuel(first_firing, 3);
    assert(bits & (0x0000_0001u32 | 0x0000_0002u32 | 0x0000_0004u32) != 0 ==> bits
        & 0x0000_0007u32 != 0 && bits & 0x007f_ffffu32 != 0) by (bit_vector);
}

/// A set of flags in which no recognized bit is set asks for the directory,
/// or else the single node, to be looked at again.
pub proof fn lemma_no_recognized_bit(bits: u32, is_dir: bool)
    requires
        bits & RECOGNIZED == 0,
    ensures
        classify_spec(bits, is_dir) == Some(
            AbstractEvent {
                kind: None,
                scan: if is_dir {
                    ScanType::Folder
                } else {
                    ScanType::SingleNode
                },
            },
        ),
{
    reveal_with_fuel(first_firing, 2);
}

/// Whether a set of flags is classified does not depend on the path being
/// a directory, and neither does the kind of change.
pub proof fn lemma_kind_ignores_directory(bits: u32)
    ensures
        classify_spec(bits, true) is Some <==> classify_spec(bits, false) is Some,
        classify_spec(bits, true) is Some ==> classify_spec(bits, true)->0.kind == classify_spec(
            bits,
            false,
        )->0.kind,
{
}

/// Row `i` of the table.
pub fn rule(i: usize) -> (r: Rule)
    requires
        i < RULE_COUNT,
    ensures
        r == table()[i as int],
{
    let folder_or_node = (ScanType::Folder, ScanType::SingleNode);
    let node = (ScanType::SingleNode, ScanType::SingleNode);
    let (mask, when_absent, kind, scans): (u32, bool, Option<EventFlag>, (ScanType, ScanType)) =
        match i {
        0 => (RECOGNIZED, true, None, folder_or_node),
        1 => (
            MUST_SCAN_SUB_DIRS | USER_DROPPED | KERNEL_DROPPED,
            false,
            None,
            (ScanType::ReScan, ScanType::ReScan),
        ),
        2 => (EVENT_IDS_WRAPPED | HISTORY_DONE, false, None, (ScanType::Nop, ScanType::Nop)),
        3 => (ROOT_CHANGED, false, None, (ScanType::ReScan, ScanType::ReScan)),
        4 => (UNMOUNT, false, Some(EventFlag::Delete), (ScanType::Folder, ScanType::Folder)),
        5 => (MOUNT, false, None, (ScanType::Folder, ScanType::Folder)),
        6 => (ITEM_CREATED, false, Some(EventFlag::Create), node),
        7 => (ITEM_REMOVED, false, Some(EventFlag::Delete), folder_or_node),
        8 => (ITEM_INODE_META_MOD, false, Some(EventFlag::Modify), node),
        9 => (ITEM_RENAMED, false, Some(EventFlag::Modify), folder_or_node),
        10 => (ITEM_MODIFIED, false, Some(EventFlag::Modify), node),
        11 => (
            ITEM_FINDER_INFO_MOD | ITEM_CHANGE_OWNER | ITEM_XATTR_MOD,
            false,
            Some(EventFlag::Modify),
            node,
        ),
        _ => (CLONED, false, Some(EventFlag::Modify), folder_or_node),
    };
    proof {
        assert(0x0000_0001u32 | 0x0000_0002u32 | 0x0000_0004u32 == 0x0000_0007u32) by (bit_vector);
        assert(0x0000_0008u32 | 0x0000_0010u32 == 0x0000_0018u32) by (bit_vector);
        assert(0x0000_2000u32 | 0x0000_4000u32 | 0x0000_8000u32 == 0x0000_e000u32) by (bit_vector);
    }
    Rule { mask, when_absent, kind, on_dir: scans.0, on_other: scans.1 }
}

/// Classifies a set of flags for a path that is, or is not, known to be a
/// directory. Fails with the flags themselves where no row of the table
/// applies.
pub fn classify(flags: MacEventFlag, is_dir: bool) -> (r: Result<AbstractEvent, MacEventFlag>)
    ensures
        match classify_spec(flags.bits(), is_dir) {
            Some(event) => r == Ok::<AbstractEvent, MacEventFlag>(event),
            None => r == Err::<AbstractEvent, MacEventFlag>(flags),
        },
{
    let bits = flags.bits;
    let mut i: usize = 0;
    while i < RULE_COUNT
        invariant
            i <= RULE_COUNT,
            bits == flags.bits(),
            first_firing(bits, 0) == first_firing(bits, i as int),
        decreases RULE_COUNT - i,
    {
        let row = rule(i);
        let hit = (bits & row.mask) != 0;
        if hit != row.when_absent {
            let scan = if is_dir {
                row.on_dir
            } else {
                row.on_other
            };
            return Ok(AbstractEvent { kind: row.kind, scan });
        }
        i += 1;
    }
    Err(flags)
}

impl MacEventFlag {
    /// The flags as a number.
    pub closed spec fn bits(&self) -> u32 {
        self.bits
    }

    /// The set whose bits are those of `bits`, with nothing taken out.
    pub fn from_bits_retain(bits: u32) -> (r: MacEventFlag)
        ensures
            r.bits() == bits,
    {
        MacEventFlag { bits }
    }

    /// The flags as a number.
    #[verifier::when_used_as_spec(bits)]
    pub fn to_bits(&self) -> (r: u32)
        ensures
            r == self.bits(),
    {
        self.bits
    }

    /// Whether every flag of `other` is set in `self`.
    pub fn contains(&self, other: MacEventFlag) -> (r: bool)
        ensures
            r == (self.bits() & other.bits() == other.bits()),
    {
        (self.bits & other.bits) == other.bits
    }

    /// Whether at least one flag of `mask` is set.
    pub fn intersects(&self, mask: u32) -> (r: bool)
        ensures
            r == (self.bits() & mask != 0),
    {
        (self.bits & mask) != 0
    }

    /// The kind of object that the notification is about.
    pub fn event_type(&self) -> (r: EventType)
        ensures
            r == event_type_spec(self.bits()),
    {
        proof {
            assert(0x0010_0000u32 | 0x0020_0000u32 == 0x0030_0000u32) by (bit_vector);
        }
        if self.intersects(IS_HARDLINK | IS_LAST_HARDLINK) {
            EventType::Hardlink
        } else if self.intersects(ITEM_IS_SYMLINK) {
            EventType::Symlink
        } else if self.intersects(ITEM_IS_DIR) {
            EventType::Dir
        } else if self.intersects(ITEM_IS_FILE) {
            EventType::File
        } else {
            EventType::Unknown
        }
    }

    /// Whether a row of the table applies to the flags.
    pub open spec fn in_vocabulary(self) -> bool {
        first_firing(self.bits(), 0) is Some
    }

    /// Whether a row of the table applies to the flags.
    pub fn is_in_vocabulary(&self) -> (r: bool)
        ensures
            r == self.in_vocabulary(),
    {
        classify(*self, false).is_ok()
    }

    /// The extent of the scan that the notification asks for, the path
    /// taken as a directory exactly when the flags say so.
    pub fn scan_type(&self) -> (r: ScanType)
        requires
            self.in_vocabulary(),
        ensures
            r == scan_type_spec(self.bits()),
    {
        let is_dir = match self.event_type() {
            EventType::Dir => true,
            _ => false,
        };
        match classify(*self, is_dir) {
            Ok(event) => event.scan,
            Err(_) => ScanType::Nop,
        }
    }
}

impl EventFlag {
    /// The kind of change that the flags stand for. Fails with the flags
    /// themselves where the table gives no kind for them.
    pub fn try_from(f: MacEventFlag) -> (r: Result<EventFlag, MacEventFlag>)
        ensures
            match classify_spec(f.bits(), false) {
                Some(AbstractEvent { kind: Some(kind), scan: _ }) => r == Ok::<
                    EventFlag,
                    MacEventFlag,
                >(kind),
                _ => r == Err::<EventFlag, MacEventFlag>(f),
            },
    {
        match classify(f, false) {
            Ok(event) => match event.kind {
                Some(kind) => Ok(kind),
                None => Err(f),
            },
            Err(_) => Err(f),
        }
    }
}

} // verus!
