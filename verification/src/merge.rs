//! What the consumer of the event stream does with an event.
//!
//! The consumer is the one writer of the index. For each event it decides
//! from the flags alone what part of the tree has to be looked at again,
//! and then carries that out.

use crate::event_flag::{
    classify, classify_spec, event_type_spec, AbstractEvent, EventFlag, EventType, MacEventFlag,
    ScanType,
};
use vstd::prelude::*;

verus! {

/// What is to be done for an event.
#[derive(Clone, Copy, Debug, PartialEq, Eq, Structural)]
pub enum MergePlan {
    /// Nothing but to take note of the id of the event.
    Advance,
    /// Walk the whole watched tree again and reconcile the index with it.
    ReScan,
    /// Take what the event names out of the index: the one node, or the
    /// folder with what is inside it.
    Forget { folder: bool },
    /// Look at what the event names again and bring the index up to it:
    /// the one node, or the folder with what is right inside it.
    Refresh { folder: bool },
}

/// The plan for a classified event.
pub open spec fn plan_of(event: AbstractEvent) -> MergePlan {
    match event.scan {
        ScanType::Nop => MergePlan::Advance,
        ScanType::ReScan => MergePlan::ReScan,
        ScanType::SingleNode => if event.kind == Some(EventFlag::Delete) {
            MergePlan::Forget { folder: false }
        } else {
            MergePlan::Refresh { folder: false }
        },
        ScanType::Folder => if event.kind == Some(EventFlag::Delete) {
            MergePlan::Forget { folder: true }
        } else {
            MergePlan::Refresh { folder: true }
        },
    }
}

/// The plan for the flags of an event, the path taken as a directory
/// exactly when the flags say so. Fails with the flags themselves where
/// they are outside the vocabulary: such an event must not be passed over.
pub fn merge_plan(flag: MacEventFlag) -> (r: Result<MergePlan, MacEventFlag>)
    ensures
        match classify_spec(flag.bits(), event_type_spec(flag.bits()) == EventType::Dir) {
            Some(event) => r == Ok::<MergePlan, MacEventFlag>(plan_of(event)),
            None => r == Err::<MergePlan, MacEventFlag>(flag),
        },
{
    let is_dir = match flag.event_type() {
        EventType::Dir => true,
        _ => false,
    };
    let event = match classify(flag, is_dir) {
        Ok(event) => event,
        Err(flag) => {
            return Err(flag);
        },
    };
    let deleted = match event.kind {
        Some(EventFlag::Delete) => true,
        _ => false,
    };
    Ok(
        match event.scan {
            ScanType::Nop => MergePlan::Advance,
            ScanType::ReScan => MergePlan::ReScan,
            ScanType::SingleNode => if deleted {
                MergePlan::Forget { folder: false }
            } else {
                MergePlan::Refresh { folder: false }
            },
            ScanType::Folder => if deleted {
                MergePlan::Forget { folder: true }
            } else {
                MergePlan::Refresh { folder: true }
            },
        },
    )
}

/// The id up to which the index is current, after an event: ids only move
/// on.
pub fn last_seen(last: u64, id: u64) -> (r: u64)
    ensures
        r == if last < id {
            id
        } else {
            last
        },
{
    if last < id {
        id
    } else {
        last
    }
}

} // verus!
