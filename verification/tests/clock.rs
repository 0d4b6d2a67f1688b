use cardinal::clock::{event_id_to_timestamp, search_cached, DeviceTimeCache, Probe};
use std::cell::Cell;

/// An oracle in which one event happens every ten seconds.
fn every_ten_seconds(_dev: i32, t: i64) -> u64 {
    (t / 10) as u64
}

#[test]
fn search_ends_where_the_oracle_answers_the_id() {
    let mut cache = DeviceTimeCache::new(1);
    // midpoints: 500 (50 > 30), 250 (25 < 30), 375 (37 > 30), 312 (31 > 30), 281 (28 < 30),
    // 296 (29 < 30), 304 (30)
    let t = event_id_to_timestamp(1, 30, 1000, &mut cache, every_ten_seconds);
    assert_eq!(t, 304);
    for (at, id) in [(500, 50), (250, 25), (375, 37), (312, 31), (281, 28), (296, 29), (304, 30)] {
        assert_eq!(cache.get(at), Some(id));
    }
    assert_eq!(cache.get(0), None);
    assert_eq!(cache.get(1000), None);
}

#[test]
fn search_ends_at_a_bound() {
    let mut cache = DeviceTimeCache::new(1);
    // no time has an id above 100: the search runs up to the last midpoint below `now`
    assert_eq!(event_id_to_timestamp(1, 1_000_000, 1000, &mut cache, every_ten_seconds), 999);
    assert_eq!(event_id_to_timestamp(1, 5, 0, &mut cache, every_ten_seconds), 0);
    assert_eq!(event_id_to_timestamp(1, 5, 1, &mut cache, every_ten_seconds), 0);
    let mut low = DeviceTimeCache::new(1);
    assert_eq!(event_id_to_timestamp(1, 0, 1000, &mut low, |_, t| (t as u64) + 1), 0);
}

#[test]
fn the_oracle_is_asked_once_for_each_time() {
    let asked = Cell::new(0u32);
    let oracle = |_dev: i32, t: i64| {
        asked.set(asked.get() + 1);
        (t / 10) as u64
    };
    let mut cache = DeviceTimeCache::new(7);
    let first = event_id_to_timestamp(7, 30, 1000, &mut cache, &oracle);
    let after_first = asked.get();
    assert_eq!(after_first, 7);
    let second = event_id_to_timestamp(7, 30, 1000, &mut cache, &oracle);
    assert_eq!(first, second);
    assert_eq!(asked.get(), after_first);
    // another id shares the first midpoints
    event_id_to_timestamp(7, 31, 1000, &mut cache, &oracle);
    assert!(asked.get() < 2 * after_first);
}

#[test]
fn later_ids_have_later_times() {
    let mut cache = DeviceTimeCache::new(1);
    let mut last = 0;
    for id in 0..150u64 {
        let t = event_id_to_timestamp(1, id, 1000, &mut cache, every_ten_seconds);
        assert!(last <= t, "id {id}: {t} is before {last}");
        assert!((0..=1000).contains(&t));
        last = t;
    }
}

#[test]
fn cached_search_stops_at_the_first_time_that_is_missing() {
    let mut cache = DeviceTimeCache::new(3);
    assert_eq!(cache.device_id(), 3);
    assert_eq!(search_cached(&cache, 30, 0, 1000), Probe::Ask { at: 500, begin: 0, end: 1000 });
    cache.record(500, 50);
    assert_eq!(search_cached(&cache, 30, 0, 1000), Probe::Ask { at: 250, begin: 0, end: 500 });
    cache.record(250, 30);
    assert_eq!(search_cached(&cache, 30, 0, 1000), Probe::Found(250));
    assert_eq!(search_cached(&cache, 60, 0, 1000), Probe::Ask { at: 750, begin: 500, end: 1000 });
    assert_eq!(search_cached(&cache, 60, 4, 5), Probe::Found(4));
    assert_eq!(search_cached(&cache, 60, 5, 5), Probe::Found(5));
}

#[test]
fn the_cache_gains_the_midpoints_that_the_search_passes() {
    let oracle = |_dev: i32, t: i64| 10 * t as u64;
    let mut cache = DeviceTimeCache::new(1);
    cache.record(7, 70);
    assert_eq!(event_id_to_timestamp(1, 30, 8, &mut cache, oracle), 3);
    let held: Vec<(i64, u64)> =
        (0..=8).filter_map(|t| cache.get(t).map(|id| (t, id))).collect();
    assert_eq!(held, vec![(2, 20), (3, 30), (4, 40), (7, 70)]);

    let mut fresh = DeviceTimeCache::new(1);
    assert_eq!(event_id_to_timestamp(1, 35, 8, &mut fresh, oracle), 3);
    let held: Vec<i64> = (0..=8).filter(|t| fresh.get(*t).is_some()).collect();
    assert_eq!(held, vec![2, 3, 4]);
}
