//! From event ids to wall-clock time.
//!
//! The operating system numbers the changes on a device, and can tell the
//! id of the last change before a given time. That answer never goes down
//! as the time goes up, so the time of an event id is found by bisecting
//! the span from the epoch to now. Every answer is kept in a cache for the
//! device, and asked for only once.

use std::collections::HashMap;
use vstd::prelude::*;

verus! {

broadcast use vstd::std_specs::hash::group_hash_axioms;

/// The answers of one device: for a time, the id of the last event before
/// it. A cache is good for the device it was made for and no other, since
/// each device numbers its events on its own.
pub struct DeviceTimeCache {
    device: i32,
    memo: HashMap<i64, u64>,
}

/// How far a search has come.
#[derive(Clone, Copy, Debug, PartialEq, Eq, Structural)]
pub enum Probe {
    /// The search has ended at this time.
    Found(i64),
    /// The search stands between `begin` and `end` and needs the answer for
    /// the time `at`, which the cache does not hold.
    Ask { at: i64, begin: i64, end: i64 },
}

/// The time half-way between two times.
pub open spec fn midpoint(begin: int, end: int) -> int {
    (begin + end) / 2
}

/// The time that the search between `begin` and `end` ends at, for an
/// oracle that answers every question. The search ends at the midpoint when
/// that is one of the two bounds, or when the oracle answers `id` there;
/// else it goes on above the midpoint where the answer is less than `id`,
/// and below where it is more.
pub open spec fn search(oracle: spec_fn(int) -> int, begin: int, end: int, id: int) -> int
    decreases end - begin,
{
    let mid = midpoint(begin, end);
    if mid <= begin || end <= mid {
        mid
    } else if oracle(mid) < id {
        search(oracle, mid, end, id)
    } else if oracle(mid) > id {
        search(oracle, begin, mid, id)
    } else {
        mid
    }
}

/// How far the search between `begin` and `end` comes with the answers of
/// a cache alone.
pub open spec fn search_in(memo: Map<i64, u64>, begin: int, end: int, id: int) -> Probe
    decreases end - begin,
{
    let mid = midpoint(begin, end);
    if mid <= begin || end <= mid {
        Probe::Found(mid as i64)
    } else if !memo.contains_key(mid as i64) {
        Probe::Ask { at: mid as i64, begin: begin as i64, end: end as i64 }
    } else if memo[mid as i64] < id {
        search_in(memo, mid, end, id)
    } else if memo[mid as i64] > id {
        search_in(memo, begin, mid, id)
    } else {
        Probe::Found(mid as i64)
    }
}

/// Whether the search between `begin` and `end` looks at the time `t`: `t`
/// is the midpoint of the bounds, or the answer at the midpoint sends the
/// search on to bounds between which it looks at `t`.
pub open spec fn passes(memo: Map<i64, u64>, begin: int, end: int, id: int, t: i64) -> bool
    decreases end - begin,
{
    let mid = midpoint(begin, end);
    if mid <= begin || end <= mid {
        false
    } else if t == mid {
        true
    } else if !memo.contains_key(mid as i64) {
        false
    } else if memo[mid as i64] < id {
        passes(memo, mid, end, id, t)
    } else if memo[mid as i64] > id {
        passes(memo, begin, mid, id, t)
    } else {
        false
    }
}

/// A search that the cache brings to its end has looked at times of the
/// cache only, all of them between its bounds.
pub proof fn lemma_passes_known(memo: Map<i64, u64>, begin: int, end: int, id: int, t: i64)
    requires
        0 <= begin <= end <= i64::MAX,
        search_in(memo, begin, end, id) is Found,
        passes(memo, begin, end, id, t),
    ensures
        memo.contains_key(t),
        begin < t < end,
    decreases end - begin,
{
    let mid = midpoint(begin, end);
    if t != mid {
        if memo[mid as i64] < id {
            lemma_passes_known(memo, mid, end, id, t);
        } else {
            lemma_passes_known(memo, begin, mid, id, t);
        }
    }
}

/// What a search looks at from the bounds at which it was left open, it
/// looks at from its first bounds too, whatever answers are added.
proof fn lemma_passes_grows(
    memo: Map<i64, u64>,
    more: Map<i64, u64>,
    begin: int,
    end: int,
    id: int,
    t: i64,
)
    requires
        0 <= begin <= end <= i64::MAX,
        memo.submap_of(more),
    ensures
        match search_in(memo, begin, end, id) {
            Probe::Found(_) => true,
            Probe::Ask { at, begin: b, end: e } => passes(more, b as int, e as int, id, t)
                ==> passes(more, begin, end, id, t),
        },
    decreases end - begin,
{
    let mid = midpoint(begin, end);
    if mid <= begin || end <= mid {
    } else if !memo.contains_key(mid as i64) {
    } else {
        assert(more.contains_key(mid as i64) && more[mid as i64] == memo[mid as i64]);
        if memo[mid as i64] < id {
            lemma_passes_grows(memo, more, mid, end, id, t);
            lemma_search_in_bounds(memo, mid, end, id);
        } else if memo[mid as i64] > id {
            lemma_passes_grows(memo, more, begin, mid, id, t);
            lemma_search_in_bounds(memo, begin, mid, id);
        }
    }
}

/// Whether every answer in the cache is the answer of the oracle.
pub open spec fn agrees(memo: Map<i64, u64>, oracle: spec_fn(int) -> int) -> bool {
    forall|t: i64| memo.contains_key(t) ==> #[trigger] memo[t] == oracle(t as int)
}

/// A search ends between its bounds.
pub proof fn lemma_search_within(oracle: spec_fn(int) -> int, begin: int, end: int, id: int)
    requires
        begin <= end,
    ensures
        begin <= search(oracle, begin, end, id) <= end,
    decreases end - begin,
{
    let mid = midpoint(begin, end);
    if mid <= begin || end <= mid {
    } else if oracle(mid) < id {
        lemma_search_within(oracle, mid, end, id);
    } else if oracle(mid) > id {
        lemma_search_within(oracle, begin, mid, id);
    }
}

/// The later event has the later time: searched between the same bounds
/// with the same oracle, a greater id never ends at an earlier time.
pub proof fn lemma_search_monotonic(
    oracle: spec_fn(int) -> int,
    begin: int,
    end: int,
    id1: int,
    id2: int,
)
    requires
        begin <= end,
        id1 <= id2,
    ensures
        search(oracle, begin, end, id1) <= search(oracle, begin, end, id2),
    decreases end - begin,
{
    let mid = midpoint(begin, end);
    if mid <= begin || end <= mid {
    } else if oracle(mid) < id1 {
        lemma_search_monotonic(oracle, mid, end, id1, id2);
    } else if oracle(mid) > id2 {
        lemma_search_monotonic(oracle, begin, mid, id1, id2);
    } else {
        if oracle(mid) > id1 {
            lemma_search_within(oracle, begin, mid, id1);
        }
        if oracle(mid) < id2 {
            lemma_search_within(oracle, mid, end, id2);
        }
    }
}

/// A search that a cache brings to its end ends where the oracle would
/// have brought it, and one that the cache leaves open goes on from its
/// new bounds to where the oracle brings it.
pub proof fn lemma_search_in_cache(
    memo: Map<i64, u64>,
    oracle: spec_fn(int) -> int,
    begin: int,
    end: int,
    id: int,
)
    requires
        0 <= begin <= end <= i64::MAX,
        agrees(memo, oracle),
    ensures
        match search_in(memo, begin, end, id) {
            Probe::Found(t) => t == search(oracle, begin, end, id),
            Probe::Ask { at, begin: b, end: e } => {
                &&& begin <= b < at < e <= end
                &&& at == midpoint(b as int, e as int)
                &&& !memo.contains_key(at)
                &&& search(oracle, b as int, e as int, id) == search(oracle, begin, end, id)
            },
        },
    decreases end - begin,
{
    let mid = midpoint(begin, end);
    if mid <= begin || end <= mid {
    } else if !memo.contains_key(mid as i64) {
    } else if memo[mid as i64] < id {
        lemma_search_in_cache(memo, oracle, mid, end, id);
    } else if memo[mid as i64] > id {
        lemma_search_in_cache(memo, oracle, begin, mid, id);
    }
}

impl View for DeviceTimeCache {
    type V = Map<i64, u64>;

    /// The answers that the cache holds.
    closed spec fn view(&self) -> Map<i64, u64> {
        self.memo@
    }
}

impl DeviceTimeCache {
    /// The device that the cache is for.
    pub closed spec fn device(&self) -> i32 {
        self.device
    }

    /// An empty cache for a device.
    pub fn new(device: i32) -> (r: Self)
        ensures
            r.device() == device,
            r@ == Map::<i64, u64>::empty(),
    {
        Self { device, memo: HashMap::new() }
    }

    /// The device that the cache is for.
    pub fn device_id(&self) -> (r: i32)
        ensures
            r == self.device(),
    {
        self.device
    }

    /// The answer for the time `at`, if the cache holds it.
    pub fn get(&self, at: i64) -> (r: Option<u64>)
        ensures
            r == if self@.contains_key(at) {
                Some(self@[at])
            } else {
                None
            },
    {
        match self.memo.get(&at) {
            Some(id) => Some(*id),
            None => None,
        }
    }

    /// Keeps the answer for the time `at`.
    pub fn record(&mut self, at: i64, id: u64)
        ensures
            final(self).device() == old(self).device(),
            final(self)@ == old(self)@.insert(at, id),
    {
        self.memo.insert(at, id);
    }
}

/// Takes the search for `event_id` between `begin` and `end` as far as the
/// cache answers.
pub fn search_cached(cache: &DeviceTimeCache, event_id: u64, begin: i64, end: i64) -> (r: Probe)
    requires
        0 <= begin <= end,
    ensures
        r == search_in(cache@, begin as int, end as int, event_id as int),
{
    let mut lo = begin;
    let mut hi = end;
    loop
        invariant
            0 <= lo <= hi,
            search_in(cache@, lo as int, hi as int, event_id as int) == search_in(
                cache@,
                begin as int,
                end as int,
                event_id as int,
            ),
        decreases hi - lo,
    {
        let mid = lo + (hi - lo) / 2;
        assert(mid == midpoint(lo as int, hi as int));
        if mid == lo || mid == hi {
            return Probe::Found(mid);
        }
        let mid_event_id = match cache.get(mid) {
            Some(id) => id,
            None => {
                return Probe::Ask { at: mid, begin: lo, end: hi };
            },
        };
        if mid_event_id < event_id {
            lo = mid
        } else if mid_event_id > event_id {
            hi = mid
        } else {
            return Probe::Found(mid);
        }
    }
}

/// Given a device id, an event id, the time now, and a cache mapping
/// timestamps to last event ids before them, perform a binary search to
/// find the timestamp corresponding to the event id. `last_id_before` is
/// asked for each time that the cache does not hold, and the answer is
/// kept.
pub fn event_id_to_timestamp<F: Fn(i32, i64) -> u64>(
    dev: i32,
    event_id: u64,
    now: i64,
    cache: &mut DeviceTimeCache,
    last_id_before: F,
) -> (r: i64)
    requires
        0 <= now,
        old(cache).device() == dev,
        forall|t: i64| 0 <= t <= now ==> call_requires(last_id_before, (dev, t)),
    ensures
        0 <= r <= now,
        final(cache).device() == dev,
        search_in(final(cache)@, 0, now as int, event_id as int) == Probe::Found(r),
        old(cache)@.submap_of(final(cache)@),
        forall|t: i64|
            #![trigger final(cache)@.contains_key(t)]
            final(cache)@.contains_key(t) && !old(cache)@.contains_key(t) ==> 0 < t < now
                && call_ensures(last_id_before, (dev, t), final(cache)@[t]),
        forall|t: i64|
            #![trigger final(cache)@.contains_key(t)]
            final(cache)@.contains_key(t) <==> old(cache)@.contains_key(t) || passes(
                final(cache)@,
                0,
                now as int,
                event_id as int,
                t,
            ),
{
    let ghost start = cache@;
    let mut begin: i64 = 0;
    let mut end: i64 = now;
    loop
        invariant
            0 <= begin <= end <= now,
            cache.device() == dev,
            start == old(cache)@,
            forall|t: i64| 0 <= t <= now ==> call_requires(last_id_before, (dev, t)),
            start.submap_of(cache@),
            forall|t: i64|
                #![trigger cache@.contains_key(t)]
                cache@.contains_key(t) && !start.contains_key(t) ==> 0 < t < now && call_ensures(
                    last_id_before,
                    (dev, t),
                    cache@[t],
                ),
            forall|memo: Map<i64, u64>|
                cache@.submap_of(memo) ==> #[trigger] search_in(
                    memo,
                    0,
                    now as int,
                    event_id as int,
                ) == search_in(memo, begin as int, end as int, event_id as int),
            forall|memo: Map<i64, u64>, t: i64|
                cache@.submap_of(memo) && #[trigger] passes(
                    memo,
                    begin as int,
                    end as int,
                    event_id as int,
                    t,
                ) ==> passes(memo, 0, now as int, event_id as int, t),
            forall|memo: Map<i64, u64>, t: i64|
                cache@.submap_of(memo) && cache@.contains_key(t) && !start.contains_key(t)
                    ==> #[trigger] passes(memo, 0, now as int, event_id as int, t),
        decreases
                end - begin,
                (if cache@.contains_key(midpoint(begin as int, end as int) as i64) {
                    0int
                } else {
                    1int
                }),
    {
        let probe = search_cached(cache, event_id, begin, end);
        proof {
            lemma_search_in_bounds(cache@, begin as int, end as int, event_id as int);
        }
        match probe {
            Probe::Found(t) => {
                proof {
                    assert(cache@.submap_of(cache@));
                    assert forall|x: i64| #![trigger cache@.contains_key(x)]
                        cache@.contains_key(x) <==> start.contains_key(x) || passes(
                            cache@,
                            0,
                            now as int,
                            event_id as int,
                            x,
                        ) by {
                        if passes(cache@, 0, now as int, event_id as int, x) {
                            lemma_passes_known(cache@, 0, now as int, event_id as int, x);
                        }
                        if start.contains_key(x) {
                            assert(cache@.contains_key(x));
                        }
                    }
                }
                return t;
            },
            Probe::Ask { at, begin: b, end: e } => {
                let ghost before = cache@;
                assert(!before.contains_key(at));
                let id = last_id_before(dev, at);
                cache.record(at, id);
                proof {
                    assert forall|k: i64| start.contains_key(k) implies cache@.contains_key(k)
                        && cache@[k] == start[k] by {
                        assert(before.contains_key(k) && before[k] == start[k]);
                    }
                    assert(start.submap_of(cache@));
                    assert forall|memo: Map<i64, u64>| cache@.submap_of(memo) implies #[trigger] search_in(
                        memo,
                        0,
                        now as int,
                        event_id as int,
                    ) == search_in(memo, b as int, e as int, event_id as int) by {
                        assert forall|k: i64| before.contains_key(k) implies memo.contains_key(k)
                            && memo[k] == before[k] by {
                            assert(cache@.contains_key(k) && cache@[k] == before[k]);
                        }
                        assert(before.submap_of(memo));
                        lemma_search_in_grows(
                            before,
                            memo,
                            begin as int,
                            end as int,
                            event_id as int,
                        );
                    }
                    assert forall|memo: Map<i64, u64>, x: i64|
                        cache@.submap_of(memo) && #[trigger] passes(
                            memo,
                            b as int,
                            e as int,
                            event_id as int,
                            x,
                        ) implies passes(memo, 0, now as int, event_id as int, x) by {
                        assert forall|k: i64| before.contains_key(k) implies memo.contains_key(k)
                            && memo[k] == before[k] by {
                            assert(cache@.contains_key(k) && cache@[k] == before[k]);
                        }
                        assert(before.submap_of(memo));
                        lemma_passes_grows(
                            before,
                            memo,
                            begin as int,
                            end as int,
                            event_id as int,
                            x,
                        );
                        assert(passes(memo, begin as int, end as int, event_id as int, x));
                    }
                    assert forall|memo: Map<i64, u64>, x: i64|
                        cache@.submap_of(memo) && cache@.contains_key(x) && !start.contains_key(
                            x,
                        ) implies #[trigger] passes(memo, 0, now as int, event_id as int, x) by {
                        assert forall|k: i64| before.contains_key(k) implies memo.contains_key(k)
                            && memo[k] == before[k] by {
                            assert(cache@.contains_key(k) && cache@[k] == before[k]);
                        }
                        assert(before.submap_of(memo));
                        if x == at {
                            assert(passes(memo, b as int, e as int, event_id as int, x));
                            lemma_passes_grows(
                                before,
                                memo,
                                begin as int,
                                end as int,
                                event_id as int,
                                x,
                            );
                            assert(passes(memo, begin as int, end as int, event_id as int, x));
                        } else {
                            assert(before.contains_key(x));
                        }
                    }
                }
                begin = b;
                end = e;
            },
        }
    }
}

/// What a search finds, and what it asks, lies between its bounds.
proof fn lemma_search_in_bounds(memo: Map<i64, u64>, begin: int, end: int, id: int)
    requires
        0 <= begin <= end <= i64::MAX,
    ensures
        match search_in(memo, begin, end, id) {
            Probe::Found(t) => begin <= t <= end,
            Probe::Ask { at, begin: b, end: e } => begin <= b < at < e <= end && at == midpoint(
                b as int,
                e as int,
            ) && !memo.contains_key(at) && e - b <= end - begin,
        },
    decreases end - begin,
{
    let mid = midpoint(begin, end);
    if mid <= begin || end <= mid {
    } else if !memo.contains_key(mid as i64) {
    } else if memo[mid as i64] < id {
        lemma_search_in_bounds(memo, mid, end, id);
    } else if memo[mid as i64] > id {
        lemma_search_in_bounds(memo, begin, mid, id);
    }
}

/// With more answers, a search that was left open goes on from where it
/// was left.
proof fn lemma_search_in_grows(
    memo: Map<i64, u64>,
    more: Map<i64, u64>,
    begin: int,
    end: int,
    id: int,
)
    requires
        0 <= begin <= end <= i64::MAX,
        memo.submap_of(more),
    ensures
        match search_in(memo, begin, end, id) {
            Probe::Found(t) => search_in(more, begin, end, id) == Probe::Found(t),
            Probe::Ask { at, begin: b, end: e } => search_in(more, begin, end, id) == search_in(
                more,
                b as int,
                e as int,
                id,
            ),
        },
    decreases end - begin,
{
    let mid = midpoint(begin, end);
    if mid <= begin || end <= mid {
    } else if !memo.contains_key(mid as i64) {
    } else {
        assert(more.contains_key(mid as i64) && more[mid as i64] == memo[mid as i64]);
        if memo[mid as i64] < id {
            lemma_search_in_grows(memo, more, mid, end, id);
        } else if memo[mid as i64] > id {
            lemma_search_in_grows(memo, more, begin, mid, id);
        }
    }
}

} // verus!
