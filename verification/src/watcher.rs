//! The life of a watch and the pace of its consumer.
//!
//! A watch is active from the moment the operating system accepts it until
//! it is cancelled; a watch that was refused, or that was never asked for,
//! is stopped from the start. The native resource behind an active watch
//! is taken down in three steps, and the same steps, as far as they are
//! due, take down one that failed to start. The consumer waits for events
//! without a limit while the backlog of history is replayed, and with a
//! limit afterwards, so that it can tell when the stream has gone quiet.

use crate::event_flag::{MacEventFlag, HISTORY_DONE};
use vstd::prelude::*;

verus! {

/// One change notification as the operating system delivers it.
#[derive(Debug)]
pub struct RawEvent {
    pub path: String,
    pub flag: MacEventFlag,
    pub id: u64,
}

/// Whether a watch delivers events.
#[derive(Clone, Copy, Debug, PartialEq, Eq, Structural)]
pub enum WatcherState {
    Active,
    Stopped,
}

/// What happens to a watch.
#[derive(Clone, Copy, Debug, PartialEq, Eq, Structural)]
pub enum WatcherEvent {
    /// The consumer has gone away: events are no longer taken off.
    ConsumerGone,
    /// The watch is cancelled, by a call or by dropping it.
    Cancelled,
}

/// One step of taking a native subscription down.
#[derive(Clone, Copy, Debug, PartialEq, Eq, Structural)]
pub enum NativeStep {
    Stop,
    Invalidate,
    Release,
}

/// The steps that take a subscription down, in their order.
pub open spec fn teardown_steps() -> Seq<NativeStep> {
    seq![NativeStep::Stop, NativeStep::Invalidate, NativeStep::Release]
}

/// What follows from an event on a watch: the state after it, and how many
/// steps of the teardown are due.
pub open spec fn step_spec(state: WatcherState, event: WatcherEvent) -> (WatcherState, nat) {
    match (state, event) {
        (WatcherState::Active, WatcherEvent::Cancelled) => (WatcherState::Stopped, 3),
        (WatcherState::Active, WatcherEvent::ConsumerGone) => (WatcherState::Active, 0),
        (WatcherState::Stopped, _) => (WatcherState::Stopped, 0),
    }
}

/// The state after a run of events.
pub open spec fn state_after(state: WatcherState, events: Seq<WatcherEvent>) -> WatcherState
    decreases events.len(),
{
    if events.len() == 0 {
        state
    } else {
        step_spec(state_after(state, events.drop_last()), events.last()).0
    }
}

/// The state of a watch that was asked for: active where the subscription
/// started, stopped where it was refused. In the second case the steps to
/// take before the failure is reported come with it, so that no
/// subscription is left behind.
pub fn spawned(started: bool) -> (r: (WatcherState, Vec<NativeStep>))
    ensures
        r.0 == if started {
            WatcherState::Active
        } else {
            WatcherState::Stopped
        },
        r.1@ == if started {
            Seq::<NativeStep>::empty()
        } else {
            teardown_steps()
        },
{
    let mut steps: Vec<NativeStep> = Vec::new();
    if started {
        (WatcherState::Active, steps)
    } else {
        steps.push(NativeStep::Stop);
        steps.push(NativeStep::Invalidate);
        steps.push(NativeStep::Release);
        proof {
            assert(steps@ =~= teardown_steps());
        }
        (WatcherState::Stopped, steps)
    }
}

/// The state of a watch that was never asked for: stopped, with nothing to
/// take down.
pub fn noop() -> (r: WatcherState)
    ensures
        r == WatcherState::Stopped,
{
    WatcherState::Stopped
}

/// Acts on an event: the state after it, and the steps that take the
/// subscription down where the event ends the watch.
pub fn step(state: WatcherState, event: WatcherEvent) -> (r: (WatcherState, Vec<NativeStep>))
    ensures
        r.0 == step_spec(state, event).0,
        r.1@ == teardown_steps().take(step_spec(state, event).1 as int),
{
    let mut steps: Vec<NativeStep> = Vec::new();
    match (state, event) {
        (WatcherState::Active, WatcherEvent::Cancelled) => {
            steps.push(NativeStep::Stop);
            steps.push(NativeStep::Invalidate);
            steps.push(NativeStep::Release);
            proof {
                assert(steps@ =~= teardown_steps().take(3));
            }
            (WatcherState::Stopped, steps)
        },
        (WatcherState::Active, WatcherEvent::ConsumerGone) => {
            proof {
                assert(steps@ =~= teardown_steps().take(0));
            }
            (WatcherState::Active, steps)
        },
        (WatcherState::Stopped, _) => {
            proof {
                assert(steps@ =~= teardown_steps().take(0));
            }
            (WatcherState::Stopped, steps)
        },
    }
}

/// A watch is taken down once, and when it is cancelled: through any run of
/// events a stopped watch stays stopped and asks for no step, and an
/// active one is taken down in full by the first cancellation, whether or
/// not the consumer has gone before.
pub proof fn lemma_cancel_takes_down(events: Seq<WatcherEvent>, at: int)
    requires
        0 <= at < events.len(),
        events[at] == WatcherEvent::Cancelled,
        forall|i: int| 0 <= i < at ==> events[i] != WatcherEvent::Cancelled,
    ensures
        state_after(WatcherState::Active, events.take(at)) == WatcherState::Active,
        step_spec(state_after(WatcherState::Active, events.take(at)), events[at]) == (
            WatcherState::Stopped,
            3nat,
        ),
        state_after(WatcherState::Active, events) == WatcherState::Stopped,
        forall|i: int|
            at < i < events.len() ==> step_spec(
                state_after(WatcherState::Active, #[trigger] events.take(i)),
                events[i],
            ) == (WatcherState::Stopped, 0nat),
{
    lemma_active_until_cancelled(events.take(at));
    assert forall|i: int| at < i <= events.len() implies state_after(
        WatcherState::Active,
        #[trigger] events.take(i),
    ) == WatcherState::Stopped by {
        lemma_stopped_from(events, at, i);
    }
    assert(events.take(events.len() as int) =~= events);
}

proof fn lemma_active_until_cancelled(events: Seq<WatcherEvent>)
    requires
        forall|i: int| 0 <= i < events.len() ==> events[i] != WatcherEvent::Cancelled,
    ensures
        state_after(WatcherState::Active, events) == WatcherState::Active,
    decreases events.len(),
{
    if events.len() > 0 {
        lemma_active_until_cancelled(events.drop_last());
    }
}

proof fn lemma_stopped_from(events: Seq<WatcherEvent>, at: int, i: int)
    requires
        0 <= at < i <= events.len(),
        events[at] == WatcherEvent::Cancelled,
        forall|j: int| 0 <= j < at ==> events[j] != WatcherEvent::Cancelled,
    ensures
        state_after(WatcherState::Active, events.take(i)) == WatcherState::Stopped,
    decreases i - at,
{
    let upto = events.take(i);
    assert(upto.drop_last() =~= events.take(i - 1));
    assert(upto.last() == events[i - 1]);
    if i - 1 == at {
        lemma_active_until_cancelled(events.take(at));
    } else {
        lemma_stopped_from(events, at, i - 1);
    }
}

/// How long the consumer waits for the next batch of events.
#[derive(Clone, Copy, Debug, PartialEq, Eq, Structural)]
pub enum Wait {
    /// Until a batch comes.
    Forever,
    /// For so many milliseconds, and then the stream counts as drained.
    Millis(u64),
}

/// The wait, in milliseconds, once the history has been replayed.
pub const DRAIN_TIMEOUT_MILLIS: u64 = 500;

/// What the consumer knows of the stream.
#[derive(Clone, Copy, Debug, PartialEq, Eq, Structural)]
pub struct Drain {
    history_done: bool,
}

impl Drain {
    /// Whether the end of the history was seen.
    pub closed spec fn done(&self) -> bool {
        self.history_done
    }

    /// The consumer before any event.
    pub fn new() -> (r: Self)
        ensures
            !r.done(),
    {
        Self { history_done: false }
    }

    /// Takes note of the flags of an event: the replay of the history is
    /// over once an event says so, and stays over.
    pub fn observe(&mut self, flag: MacEventFlag)
        ensures
            final(self).done() == (old(self).done() || flag.bits() & HISTORY_DONE != 0),
    {
        if flag.intersects(HISTORY_DONE) {
            self.history_done = true;
        }
    }

    /// Whether the end of the history was seen.
    pub fn history_done(&self) -> (r: bool)
        ensures
            r == self.done(),
    {
        self.history_done
    }

    /// How long to wait for the next batch.
    pub fn wait(&self) -> (r: Wait)
        ensures
            r == if self.done() {
                Wait::Millis(DRAIN_TIMEOUT_MILLIS)
            } else {
                Wait::Forever
            },
    {
        if self.history_done {
            // If history is done, we try to drain the event stream with a timeout.
            Wait::Millis(DRAIN_TIMEOUT_MILLIS)
        } else {
            Wait::Forever
        }
    }
}

} // verus!
