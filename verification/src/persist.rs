//! The steps by which a snapshot of the index is saved and loaded.
//!
//! A snapshot is written to a temporary file beside the final one, and the
//! temporary file is renamed over the final one only when it is complete.
//! Each step may fail. The order of the steps, and what a failure of each
//! means, are decided here; the steps themselves are carried out by the
//! caller, which reports how each one went.

use crate::arena::{NodeArena, NodeIndex};
use crate::node::NodeRecord;
use vstd::prelude::*;

verus! {

/// What is kept on disk: the arena of records, and the name index with
/// names of its own.
pub struct PersistentStorage {
    pub slab: NodeArena<NodeRecord>,
    pub name_index: Vec<(String, Vec<NodeIndex>)>,
}

/// The level at which a snapshot is compressed.
pub const COMPRESSION_LEVEL: i32 = 6;

/// The number of compression threads where the machine does not tell how
/// many it can run.
pub const DEFAULT_THREADS: u32 = 4;

/// One step of saving a snapshot.
#[derive(Clone, Copy, Debug, PartialEq, Eq, Structural)]
pub enum SaveStep {
    /// Create the temporary file.
    CreateTemp,
    /// Set up the compressor over it.
    StartEncoder,
    /// Make the compressor use several threads.
    SetThreads,
    /// Encode the snapshot through the compressor, and finish the stream.
    Encode,
    /// Rename the temporary file over the final one.
    Rename,
}

/// One step of loading a snapshot.
#[derive(Clone, Copy, Debug, PartialEq, Eq, Structural)]
pub enum LoadStep {
    /// Open the final file.
    Open,
    /// Set up the decompressor over it.
    StartDecoder,
    /// Decode the snapshot through the decompressor.
    Decode,
}

/// Where a save or a load stands.
#[derive(Debug, PartialEq, Eq, Structural)]
pub enum Progress<S> {
    /// The step to take next.
    Next(S),
    /// All steps were taken.
    Done,
    /// A step failed, and nothing more is to be done.
    Failed(S),
}

/// The step that follows a step of saving, if any does.
pub open spec fn save_successor(step: SaveStep) -> Option<SaveStep> {
    match step {
        SaveStep::CreateTemp => Some(SaveStep::StartEncoder),
        SaveStep::StartEncoder => Some(SaveStep::SetThreads),
        SaveStep::SetThreads => Some(SaveStep::Encode),
        SaveStep::Encode => Some(SaveStep::Rename),
        SaveStep::Rename => None,
    }
}

/// The step that follows a step of loading, if any does.
pub open spec fn load_successor(step: LoadStep) -> Option<LoadStep> {
    match step {
        LoadStep::Open => Some(LoadStep::StartDecoder),
        LoadStep::StartDecoder => Some(LoadStep::Decode),
        LoadStep::Decode => None,
    }
}

/// Where a save stands after the outcomes `outcomes` of its steps, taken
/// one after another from the first step on. Outcomes behind the end of
/// the save do not count.
pub open spec fn save_after(outcomes: Seq<bool>) -> Progress<SaveStep>
    decreases outcomes.len(),
{
    if outcomes.len() == 0 {
        Progress::Next(SaveStep::CreateTemp)
    } else {
        match save_after(outcomes.drop_last()) {
            Progress::Next(step) => if outcomes.last() {
                match save_successor(step) {
                    Some(next) => Progress::Next(next),
                    None => Progress::Done,
                }
            } else {
                Progress::Failed(step)
            },
            ended => ended,
        }
    }
}

/// The final file is replaced only by a complete snapshot: where a save
/// comes to rename the temporary file, the file was created, and the
/// snapshot was encoded into it and the stream finished, each with
/// success.
pub proof fn lemma_rename_follows_complete_write(outcomes: Seq<bool>)
    requires
        save_after(outcomes) == Progress::Next(SaveStep::Rename),
    ensures
        outcomes.len() >= 4,
        forall|i: int| 0 <= i < 4 ==> outcomes[i],
        save_after(outcomes.take(1)) == Progress::Next(SaveStep::StartEncoder),
        save_after(outcomes.take(4)) == Progress::Next(SaveStep::Rename),
{
    lemma_save_position(outcomes);
    assert(outcomes.len() == 4);
    assert(outcomes.take(4) =~= outcomes);
    let a = outcomes.drop_last();
    lemma_save_position(a);
    let b = a.drop_last();
    lemma_save_position(b);
    let c = b.drop_last();
    lemma_save_position(c);
    assert(outcomes.take(1) =~= c);
    assert(c[0] == outcomes[0] && b[1] == outcomes[1] && a[2] == outcomes[2]);
}

/// A save that has not ended has taken one step for each outcome, each
/// with success.
proof fn lemma_save_position(outcomes: Seq<bool>)
    ensures
        match save_after(outcomes) {
            Progress::Next(step) => outcomes.len() == save_position(step) && (outcomes.len() > 0
                ==> outcomes.last() && save_after(outcomes.drop_last()) is Next
                && save_successor(save_after(outcomes.drop_last())->Next_0) == Some(step)),
            _ => true,
        },
    decreases outcomes.len(),
{
    if outcomes.len() > 0 {
        lemma_save_position(outcomes.drop_last());
    }
}

/// How many steps come before a step of saving.
pub open spec fn save_position(step: SaveStep) -> nat {
    match step {
        SaveStep::CreateTemp => 0,
        SaveStep::StartEncoder => 1,
        SaveStep::SetThreads => 2,
        SaveStep::Encode => 3,
        SaveStep::Rename => 4,
    }
}

/// Once a save has failed or is done, it stays so.
pub proof fn lemma_save_ends_once(outcomes: Seq<bool>, more: bool)
    requires
        !(save_after(outcomes) is Next),
    ensures
        save_after(outcomes.push(more)) == save_after(outcomes),
{
    assert(outcomes.push(more).drop_last() =~= outcomes);
}

/// The first step of a save.
pub fn save_begin() -> (r: Progress<SaveStep>)
    ensures
        r == save_after(Seq::<bool>::empty()),
{
    Progress::Next(SaveStep::CreateTemp)
}

/// Where a save stands after `step` went well (`ok`) or failed.
pub fn save_advance(step: SaveStep, ok: bool) -> (r: Progress<SaveStep>)
    ensures
        r == if !ok {
            Progress::Failed(step)
        } else {
            match save_successor(step) {
                Some(next) => Progress::Next(next),
                None => Progress::Done,
            }
        },
        forall|outcomes: Seq<bool>| #[trigger]
            save_after(outcomes) == Progress::Next(step) ==> r == save_after(outcomes.push(ok)),
{
    proof {
        assert forall|outcomes: Seq<bool>| #[trigger]
            save_after(outcomes) == Progress::Next(step) implies save_after(outcomes.push(ok)) == (
        if !ok {
            Progress::Failed(step)
        } else {
            match save_successor(step) {
                Some(next) => Progress::Next(next),
                None => Progress::Done,
            }
        }) by {
            assert(outcomes.push(ok).drop_last() =~= outcomes);
        }
    }
    if !ok {
        return Progress::Failed(step);
    }
    match step {
        SaveStep::CreateTemp => Progress::Next(SaveStep::StartEncoder),
        SaveStep::StartEncoder => Progress::Next(SaveStep::SetThreads),
        SaveStep::SetThreads => Progress::Next(SaveStep::Encode),
        SaveStep::Encode => Progress::Next(SaveStep::Rename),
        SaveStep::Rename => Progress::Done,
    }
}

/// The first step of a load.
pub fn load_begin() -> (r: Progress<LoadStep>)
    ensures
        r == Progress::Next(LoadStep::Open),
{
    Progress::Next(LoadStep::Open)
}

/// Where a load stands after `step` went well (`ok`) or failed. A load
/// that fails at any step yields no snapshot: a missing or damaged file is
/// never taken for an empty index.
pub fn load_advance(step: LoadStep, ok: bool) -> (r: Progress<LoadStep>)
    ensures
        r == if !ok {
            Progress::Failed(step)
        } else {
            match load_successor(step) {
                Some(next) => Progress::Next(next),
                None => Progress::Done,
            }
        },
{
    if !ok {
        return Progress::Failed(step);
    }
    match step {
        LoadStep::Open => Progress::Next(LoadStep::StartDecoder),
        LoadStep::StartDecoder => Progress::Next(LoadStep::Decode),
        LoadStep::Decode => Progress::Done,
    }
}

/// What to report when a step of saving fails.
pub fn save_failure(step: SaveStep) -> (r: &'static str)
    ensures
        r@ == match step {
            SaveStep::CreateTemp => "Failed to create cache file"@,
            SaveStep::StartEncoder => "Failed to create zstd encoder"@,
            SaveStep::SetThreads => "Failed to create parallel zstd encoder"@,
            SaveStep::Encode => "Failed to encode cache"@,
            SaveStep::Rename => "Failed to replace cache file"@,
        },
{
    match step {
        SaveStep::CreateTemp => "Failed to create cache file",
        SaveStep::StartEncoder => "Failed to create zstd encoder",
        SaveStep::SetThreads => "Failed to create parallel zstd encoder",
        SaveStep::Encode => "Failed to encode cache",
        SaveStep::Rename => "Failed to replace cache file",
    }
}

/// What to report when a step of loading fails.
pub fn load_failure(step: LoadStep) -> (r: &'static str)
    ensures
        r@ == match step {
            LoadStep::Open => "Failed to open cache file"@,
            LoadStep::StartDecoder => "Failed to create zstd decoder"@,
            LoadStep::Decode => "Failed to decode cache"@,
        },
{
    match step {
        LoadStep::Open => "Failed to open cache file",
        LoadStep::StartDecoder => "Failed to create zstd decoder",
        LoadStep::Decode => "Failed to decode cache",
    }
}

/// The number of threads to compress with: as many as the machine can run
/// at once, as far as that number fits in 32 bits, and four where the
/// machine does not tell.
pub fn encoder_threads(available: Option<usize>) -> (r: u32)
    ensures
        r == match available {
            Some(n) => (n as int % 0x1_0000_0000) as u32,
            None => DEFAULT_THREADS,
        },
{
    match available {
        Some(n) => low_bits(n),
        None => DEFAULT_THREADS,
    }
}

/// The low 32 bits of a number.
fn low_bits(n: usize) -> (r: u32)
    ensures
        r == (n as int % 0x1_0000_0000) as u32,
{
    let low = (n as u64) % 0x1_0000_0000u64;
    low as u32
}

} // verus!
