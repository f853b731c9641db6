use chiron::core_shard::{CoreShard, QueryFilter};
use chiron::log_entry::LogEntry;
use chiron::monotonic_stack::MonotonicStack;
use chiron::vnode_ring::VNodeRing;
use chiron::window_metadata::WindowMetadataMap;

fn make_entry(ts: i64, svc: &str, host: &str) -> LogEntry {
    LogEntry {
        timestamp: ts,
        service_name: svc.to_string(),
        host_id: host.to_string(),
        message: format!("log@{}", ts),
    }
}

/// A score as its rank in tenths, which keeps the order of the scores.
fn ranked(windows: Vec<(i64, f64)>) -> Vec<(i64, i64)> {
    windows
        .into_iter()
        .map(|(key, score)| (key, (score * 10.0) as i64))
        .collect()
}

#[test]
fn ingest_and_query_by_service() {
    let mut shard = CoreShard::new(0, 0, 1000, 100);
    shard.ingest(make_entry(10, "auth", "h1"));
    shard.ingest(make_entry(20, "payment", "h1"));
    shard.ingest(make_entry(30, "auth", "h2"));

    let results = shard.query(0, 100, &QueryFilter::ByService("auth"));
    assert_eq!(results.len(), 2);
    assert!(results.iter().all(|e| e.service_name == "auth"));
}

#[test]
fn core_shard_query_by_service_and_host() {
    let mut shard = CoreShard::new(0, 0, 1000, 100);
    shard.ingest(make_entry(10, "auth", "h1"));
    shard.ingest(make_entry(20, "auth", "h2"));
    shard.ingest(make_entry(30, "payment", "h1"));

    let results = shard.query(0, 100, &QueryFilter::ByServiceAndHost("auth", "h1"));
    assert_eq!(results.len(), 1);
    assert_eq!(results[0].timestamp, 10);
}

#[test]
fn core_shard_query_respects_time_range() {
    let mut shard = CoreShard::new(0, 0, 1000, 100);
    for ts in [5, 10, 15, 20, 25] {
        shard.ingest(make_entry(ts, "svc", "h1"));
    }
    let results = shard.query(10, 20, &QueryFilter::ByService("svc"));
    assert_eq!(results.len(), 3); // 10, 15, 20
}

#[test]
fn a_query_stays_within_the_shards_range() {
    let mut shard = CoreShard::new(3, 100, 200, 100);
    for ts in [99, 100, 150, 199, 200] {
        shard.ingest(make_entry(ts, "svc", "h1"));
    }
    let found: Vec<i64> = shard
        .query(0, 1000, &QueryFilter::TimeOnly)
        .iter()
        .map(|e| e.timestamp)
        .collect();
    assert_eq!(found, vec![100, 150, 199]);
    assert_eq!(shard.query(0, 1000, &QueryFilter::ByHost("h1")).len(), 3);
    assert_eq!(shard.query(0, 1000, &QueryFilter::ByHost("h2")).len(), 0);
    assert!(shard.owns(100) && shard.owns(199) && !shard.owns(200) && !shard.owns(99));
    assert!(shard.overlaps(0, 100) && shard.overlaps(199, 300));
    assert!(!shard.overlaps(200, 300) && !shard.overlaps(0, 99));
    assert_eq!(shard.take_query_count(), 3);
    assert_eq!(shard.take_query_count(), 0);
}

#[test]
fn a_full_shard_overwrites_its_oldest() {
    let mut shard = CoreShard::new(0, 0, 1000, 3);
    for ts in 0..5 {
        assert_eq!(shard.ingest(make_entry(ts, "svc", "h1")), ts as u64);
    }
    let found: Vec<i64> = shard
        .query(0, 100, &QueryFilter::ByService("svc"))
        .iter()
        .map(|e| e.timestamp)
        .collect();
    assert_eq!(found, vec![2, 3, 4]);
}

#[test]
fn eviction_takes_the_lowest_windows_first() {
    let mut shard = CoreShard::new(0, 0, 1000, 100);
    // Five entries in each of the windows 0, 10, 20 and 30.
    for ts in 0..20 {
        shard.ingest(make_entry(ts * 2, "svc", "h1"));
    }
    shard.query(0, 39, &QueryFilter::TimeOnly);
    assert!(shard.window_meta.contains(0) && shard.window_meta.contains(30));
    let mut known = shard.known_windows();
    known.sort_unstable();
    assert_eq!(known, vec![0, 10, 20, 30]);
    assert_eq!(shard.service_index.get("svc").unwrap().len(), 20);

    // At its target already.
    let scores = vec![(0, 5), (10, 1), (20, 3), (30, 9)];
    assert!(shard.run_eviction(20, scores.clone()).is_empty());
    assert_eq!(shard.ring_buffer.len(), 20);

    // Window 30 is the horizon; 10, 20 and 0 may go, in this order.
    assert_eq!(shard.run_eviction(12, scores), vec![10, 20]);
    assert_eq!(shard.ring_buffer.len(), 10);
    assert!(!shard.window_meta.contains(10));
    assert!(shard.window_meta.contains(0));
    // The indexes list nothing below the oldest entry that is left.
    let left: Vec<u64> = (10..20).collect();
    assert_eq!(shard.service_index.get("svc"), Some(left.as_slice()));
    assert_eq!(shard.host_index.get("h1"), Some(left.as_slice()));
    let found: Vec<i64> = shard
        .query(0, 100, &QueryFilter::ByService("svc"))
        .iter()
        .map(|e| e.timestamp)
        .collect();
    assert_eq!(found, vec![20, 22, 24, 26, 28, 30, 32, 34, 36, 38]);
}

#[test]
fn eviction_counts_the_entries_of_negative_windows() {
    let mut shard = CoreShard::new(0, -100, 100, 100);
    for ts in -10..10 {
        shard.ingest(make_entry(ts, "svc", "h1"));
    }
    shard.query(-10, 9, &QueryFilter::TimeOnly);
    let mut known = shard.known_windows();
    known.sort_unstable();
    assert_eq!(known, vec![-10, 0]);
    assert_eq!(shard.run_eviction(5, vec![(-10, 1), (0, 2)]), vec![-10]);
    let found: Vec<i64> = shard
        .query(-100, 99, &QueryFilter::ByHost("h1"))
        .iter()
        .map(|e| e.timestamp)
        .collect();
    assert_eq!(found, (0..10).collect::<Vec<i64>>());
}

#[test]
fn a_query_may_start_at_the_lowest_timestamp() {
    let mut shard = CoreShard::new(0, i64::MIN, 100, 10);
    for ts in [i64::MIN, i64::MIN + 5, i64::MIN + 8, i64::MIN + 12] {
        shard.ingest(make_entry(ts, "svc", "h1"));
    }
    let found = shard.query(i64::MIN, i64::MIN + 9, &QueryFilter::TimeOnly);
    assert_eq!(found.len(), 3);
    let mut known = shard.known_windows();
    known.sort_unstable();
    assert_eq!(known, vec![i64::MIN, -9223372036854775800]);
    // Two entries are in the lowest window.
    let scores = vec![(i64::MIN, 1), (-9223372036854775800, 2)];
    assert_eq!(shard.run_eviction(1, scores), vec![i64::MIN]);
    assert_eq!(shard.ring_buffer.len(), 2);
}

#[test]
fn horizon_is_max_score() {
    let mut stack = MonotonicStack::new();
    stack.rebuild(ranked(vec![(0, 1.0), (10, 5.0), (20, 3.0), (30, 2.0)]));
    assert_eq!(stack.horizon(), Some(10));
}

#[test]
fn evictable_is_left_of_horizon() {
    let mut stack = MonotonicStack::new();
    stack.rebuild(ranked(vec![(0, 1.0), (10, 0.5), (20, 8.0), (30, 3.0)]));
    // The horizon is at 20 (score 8.0). Evictable: 0 and 10, left of 20.
    // Sorted by score: 10 (0.5), then 0 (1.0).
    let ev = stack.evictable();
    assert_eq!(ev, vec![10, 0]);
}

#[test]
fn nothing_evictable_when_horizon_is_leftmost() {
    let mut stack = MonotonicStack::new();
    stack.rebuild(ranked(vec![(0, 10.0), (10, 2.0), (20, 1.0)]));
    // The horizon is at 0: nothing is left of it.
    let ev = stack.evictable();
    assert!(ev.is_empty());
}

#[test]
fn of_equal_peaks_the_newest_is_the_horizon() {
    let mut stack = MonotonicStack::new();
    assert!(stack.is_empty());
    assert_eq!(stack.horizon(), None);
    assert!(stack.evictable().is_empty());
    stack.rebuild(vec![(30, 7), (0, 2), (20, 2), (10, 7)]);
    assert_eq!(stack.len(), 4);
    assert_eq!(stack.horizon(), Some(30));
    assert_eq!(stack.evictable(), vec![0, 20, 10]);
}

#[test]
fn windows_of_timestamps() {
    let mut map = WindowMetadataMap::new(10);
    assert_eq!(map.window_key(0), 0);
    assert_eq!(map.window_key(9), 0);
    assert_eq!(map.window_key(25), 20);
    // A window holds the timestamps from its start on, negative ones, too.
    assert_eq!(map.window_key(-1), -10);
    assert_eq!(map.window_key(-5), -10);
    assert_eq!(map.window_key(-10), -10);
    assert_eq!(map.window_key(-25), -30);
    assert_eq!(map.window_key(i64::MIN + 10), -9223372036854775800);
    // The lowest window is known by the lowest timestamp.
    assert_eq!(map.window_key(i64::MIN), i64::MIN);
    assert_eq!(map.window_key(i64::MIN + 7), i64::MIN);
    assert_eq!(map.window_key(i64::MIN + 8), -9223372036854775800);
    assert_eq!(map.window_end(i64::MIN), -9223372036854775800);
    assert_eq!(map.window_end(20), 30);
    assert_eq!(
        map.windows_in(i64::MIN, i64::MIN + 20),
        vec![i64::MIN, -9223372036854775800, -9223372036854775790]
    );
    assert_eq!(map.windows_in(i64::MIN + 3, i64::MIN + 1), vec![i64::MIN]);
    assert!(map.windows_in(i64::MIN + 9, i64::MIN + 1).is_empty());
    assert_eq!(map.record_query(-15, 25), vec![-20, -10, 0, 10, 20]);
    assert!(map.record_query(25, 5).is_empty());
    assert!(map.contains(10));
    map.remove_window(10);
    assert!(!map.contains(10));
    assert_eq!(map.set_algo_signal(47), 40);
    assert!(map.contains(40));
    assert_eq!(map.window_size(), 10);
    let mut keys = map.keys();
    keys.sort_unstable();
    assert_eq!(keys, vec![-20, -10, 0, 20, 40]);
}

#[test]
fn vnode_lookup() {
    let ring = VNodeRing::new(3, 300, 100);
    // Core 0: [0, 100), core 1: [100, 200), core 2: [200, 300)
    assert_eq!(ring.find_vnode(50), Some(0));
    assert_eq!(ring.find_vnode(150), Some(1));
    assert_eq!(ring.find_vnode(250), Some(2));
    assert_eq!(ring.find_vnode(300), None);
}

#[test]
fn range_query_spans_vnodes() {
    let ring = VNodeRing::new(3, 300, 100);
    let vnodes = ring.find_vnodes_in_range(80, 150);
    assert_eq!(vnodes, vec![0, 1]);
}

#[test]
fn split_vnode_creates_new_shard() {
    let mut ring = VNodeRing::new(2, 200, 100);
    // Ingest into shard 0 ([0, 100)).
    for ts in (0..100).step_by(5) {
        ring.shards[0].ingest(make_entry(ts, "svc", "h1"));
    }
    let result = ring.split_vnode(0, None).unwrap();
    assert_eq!(ring.vnodes.len(), 3);
    assert_eq!(ring.shards.len(), 3);
    assert!(result.split_point > 0 && result.split_point < 100);
}

#[test]
fn the_last_slice_takes_what_is_left_over() {
    let ring = VNodeRing::new(3, 100, 10);
    let ranges: Vec<(i64, i64)> = ring
        .vnodes
        .iter()
        .map(|v| (v.time_start, v.time_end))
        .collect();
    assert_eq!(ranges, vec![(0, 33), (33, 66), (66, 100)]);
    assert_eq!(ring.find_vnode(-1), None);
    assert_eq!(ring.find_vnode(99), Some(2));
    assert_eq!(ring.shard_for_vnode(1).id, 1);
}

#[test]
fn a_split_keeps_every_answer() {
    let mut ring = VNodeRing::new(2, 200, 100);
    for ts in (0..100).step_by(5) {
        ring.shard_for_vnode_mut(0).ingest(make_entry(ts, "svc", "h1"));
    }
    let before: Vec<i64> = ring.shards[0]
        .query(0, 199, &QueryFilter::ByService("svc"))
        .iter()
        .map(|e| e.timestamp)
        .collect();
    let split = ring.split_vnode(0, Some(42)).unwrap();
    assert_eq!(split.old_vnode_idx, 0);
    assert_eq!(split.new_core_id, 2);
    assert_eq!(split.split_point, 42);
    let mut after = Vec::new();
    for at in ring.find_vnodes_in_range(0, 199) {
        let shard = ring.shard_for_vnode_mut(at);
        after.extend(
            shard
                .query(0, 199, &QueryFilter::ByService("svc"))
                .iter()
                .map(|e| e.timestamp),
        );
    }
    assert_eq!(after, before);
    // Every timestamp still has one owner.
    assert_eq!(ring.find_vnode(41), Some(0));
    assert_eq!(ring.find_vnode(42), Some(1));
    assert_eq!(ring.find_vnode(100), Some(2));
}

#[test]
fn split_points_are_kept_inside_the_range() {
    let mut ring = VNodeRing::new(1, 100, 10);
    assert_eq!(ring.split_vnode(0, Some(-5)).unwrap().split_point, 1);
    assert!(ring.split_vnode(0, None).is_none());
    assert_eq!(ring.split_vnode(1, Some(1000)).unwrap().split_point, 99);
    assert_eq!(ring.split_vnode(1, None).unwrap().split_point, 50);
    assert_eq!(ring.windows_to_weigh(1), vec![1, 11, 21, 31, 41]);
}
