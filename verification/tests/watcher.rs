use cardinal::event_flag::{MacEventFlag, HISTORY_DONE, ITEM_CREATED, ITEM_IS_FILE};
use cardinal::watcher::{
    noop, spawned, step, Drain, NativeStep, Wait, WatcherEvent, WatcherState,
};

const TEARDOWN: [NativeStep; 3] = [NativeStep::Stop, NativeStep::Invalidate, NativeStep::Release];

#[test]
fn a_watch_that_starts_is_active() {
    assert_eq!(spawned(true), (WatcherState::Active, vec![]));
}

#[test]
fn a_watch_that_is_refused_is_taken_down_at_once() {
    assert_eq!(spawned(false), (WatcherState::Stopped, TEARDOWN.to_vec()));
}

#[test]
fn cancelling_takes_the_subscription_down() {
    assert_eq!(
        step(WatcherState::Active, WatcherEvent::Cancelled),
        (WatcherState::Stopped, TEARDOWN.to_vec())
    );
    assert_eq!(step(WatcherState::Stopped, WatcherEvent::Cancelled), (WatcherState::Stopped, vec![]));
}

#[test]
fn cancelling_works_after_the_consumer_has_gone() {
    let (state, steps) = step(WatcherState::Active, WatcherEvent::ConsumerGone);
    assert_eq!((state, steps), (WatcherState::Active, vec![]));
    assert_eq!(step(state, WatcherEvent::Cancelled), (WatcherState::Stopped, TEARDOWN.to_vec()));
}

#[test]
fn a_noop_watch_is_stopped() {
    let state = noop();
    assert_eq!(state, WatcherState::Stopped);
    assert_eq!(step(state, WatcherEvent::Cancelled), (WatcherState::Stopped, vec![]));
    assert_eq!(step(state, WatcherEvent::ConsumerGone), (WatcherState::Stopped, vec![]));
}

#[test]
fn consumer_waits_without_limit_until_the_history_is_done() {
    let mut drain = Drain::new();
    assert_eq!(drain.wait(), Wait::Forever);
    drain.observe(MacEventFlag::from_bits_retain(ITEM_CREATED | ITEM_IS_FILE));
    assert!(!drain.history_done());
    assert_eq!(drain.wait(), Wait::Forever);
    drain.observe(MacEventFlag::from_bits_retain(HISTORY_DONE));
    assert!(drain.history_done());
    assert_eq!(drain.wait(), Wait::Millis(500));
    drain.observe(MacEventFlag::from_bits_retain(ITEM_CREATED));
    assert_eq!(drain.wait(), Wait::Millis(500));
}
