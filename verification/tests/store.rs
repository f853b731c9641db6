use std::collections::hash_map::DefaultHasher;
use std::hash::{Hash, Hasher};

use chiron::chiron::ChironStore;
use chiron::log_entry::{LogEntry, SharedLogEntry};
use chiron::partition_for_host;

fn make_entry(ts: i64, svc: &str, host: &str) -> LogEntry {
    LogEntry {
        timestamp: ts,
        service_name: svc.to_string(),
        host_id: host.to_string(),
        message: format!("log@{}", ts),
    }
}

fn assert_nondecreasing_timestamps(entries: &[SharedLogEntry]) {
    assert!(
        entries
            .windows(2)
            .all(|pair| pair[0].timestamp <= pair[1].timestamp),
        "query results must be ordered by nondecreasing timestamp"
    );
}

fn timestamps(entries: &[SharedLogEntry]) -> Vec<i64> {
    entries.iter().map(|e| e.timestamp).collect()
}

/// The partition of a host, by the hash that the store uses.
fn part(host: &str, shard_count: usize) -> u32 {
    partition_for_host(host, shard_count) as u32
}

#[test]
fn ingest_flush_and_query() {
    let mut store = ChironStore::new(1000);

    store.ingest(make_entry(10, "auth", "h1"));
    store.ingest(make_entry(20, "payment", "h1"));
    store.ingest(make_entry(30, "auth", "h2"));

    // Entries are queryable immediately after ingest.
    let result = store.query_by_service("auth", 0, 100);
    assert_eq!(result.entries.len(), 2);
    assert!(result.entries.iter().all(|e| &*e.service_name == "auth"));
    assert_nondecreasing_timestamps(&result.entries);

    // Flushing is still safe.
    store.flush_indexer();

    let result = store.query_by_service("auth", 0, 100);
    assert_eq!(result.entries.len(), 2);
}

#[test]
fn query_by_host() {
    let mut store = ChironStore::new(1000);
    store.ingest(make_entry(10, "auth", "h1"));
    store.ingest(make_entry(20, "auth", "h2"));
    store.ingest(make_entry(30, "payment", "h1"));
    store.flush_indexer();

    let result = store.query_by_host("h1", 0, 100);
    assert_eq!(result.entries.len(), 2);
    assert!(result.entries.iter().all(|e| &*e.host_id == "h1"));
    assert_nondecreasing_timestamps(&result.entries);
}

#[test]
fn chiron_query_by_service_and_host() {
    let mut store = ChironStore::new(1000);
    store.ingest(make_entry(10, "auth", "h1"));
    store.ingest(make_entry(20, "auth", "h2"));
    store.ingest(make_entry(30, "payment", "h1"));
    store.flush_indexer();

    let result = store.query_by_service_and_host("auth", "h1", 0, 100);
    assert_eq!(result.entries.len(), 1);
    assert_eq!(result.entries[0].timestamp, 10);
}

#[test]
fn shard_local_flush_only_indexes_that_shard() {
    let mut store = ChironStore::with_shards(12, 2);
    let p0 = part("host-0", 2);
    let p1 = part("host-1", 2);
    assert_ne!(p0, p1, "pick hosts that hash to different shards");

    store.ingest_partition(p0, make_entry(10, "auth", "host-0"));
    store.ingest_partition(p1, make_entry(20, "auth", "host-1"));

    // Both shards are already indexed.
    let h0 = store.query_by_host("host-0", 0, 100);
    assert_eq!(h0.entries.len(), 1);
    assert_eq!(h0.entries[0].timestamp, 10);

    let h1 = store.query_by_host("host-1", 0, 100);
    assert_eq!(h1.entries.len(), 1);
    assert_eq!(h1.entries[0].timestamp, 20);
}

#[test]
fn batch_ingest_partition_indexes_all_entries() {
    let mut store = ChironStore::with_shards(12, 2);
    let p = part("h1", 2);
    let ingested = store.ingest_partition_batch(
        p,
        vec![make_entry(10, "auth", "h1"), make_entry(20, "auth", "h1")],
    );
    assert_eq!(ingested, 2);
    assert_eq!(store.len(), 2);

    store.flush_indexer_shard(p);

    let host = store.query_by_host("h1", 0, 100);
    assert_eq!(host.entries.len(), 2);
    assert_nondecreasing_timestamps(&host.entries);

    let pair = store.query_by_service_and_host("auth", "h1", 0, 100);
    assert_eq!(pair.entries.len(), 2);
    assert_nondecreasing_timestamps(&pair.entries);
}

#[test]
fn chiron_query_respects_time_range() {
    let mut store = ChironStore::new(1000);
    for ts in [5, 10, 15, 20, 25] {
        store.ingest(make_entry(ts, "svc", "h1"));
    }
    store.flush_indexer();

    let result = store.query_by_service("svc", 10, 20);
    assert_eq!(result.entries.len(), 3);
    assert_nondecreasing_timestamps(&result.entries);
}

#[test]
fn indexer_lag_tracks_unindexed() {
    let mut store = ChironStore::new(1000);
    assert_eq!(store.indexer_lag(), 0);
    assert_eq!(store.len(), 0);

    store.ingest(make_entry(1, "a", "h1"));
    store.ingest(make_entry(2, "b", "h1"));
    // Every write is indexed at once.
    assert_eq!(store.indexer_lag(), 0);
    assert_eq!(store.len(), 2);

    store.flush_indexer();
    assert_eq!(store.indexer_lag(), 0);
}

#[test]
fn flush_indexer_makes_entries_queryable() {
    let mut store = ChironStore::new(1000);
    for ts in 0..100 {
        store.ingest(make_entry(ts, "svc", "h1"));
    }
    store.flush_indexer();
    assert_eq!(store.indexer_lag(), 0);

    let result = store.query_by_service("svc", 0, 100);
    assert_eq!(result.entries.len(), 100);
    assert_nondecreasing_timestamps(&result.entries);
}

#[test]
fn sharded_queries_route_by_host() {
    let shard_count = 4;
    let mut store = ChironStore::with_shards(100, shard_count);

    store.ingest(make_entry(10, "auth", "h0"));
    store.ingest(make_entry(20, "auth", "h1"));
    store.ingest(make_entry(30, "payments", "h2"));
    store.ingest(make_entry(40, "auth", "h1"));
    store.flush_indexer();

    let host_result = store.query_by_host("h1", 0, 100);
    assert_eq!(host_result.entries.len(), 2);
    assert!(host_result.entries.iter().all(|e| &*e.host_id == "h1"));

    let service_result = store.query_by_service("auth", 0, 100);
    assert_eq!(service_result.entries.len(), 3);
    assert_nondecreasing_timestamps(&service_result.entries);

    let combined = store.query_by_service_and_host("auth", "h1", 0, 100);
    assert_eq!(combined.entries.len(), 2);
    assert_nondecreasing_timestamps(&combined.entries);
}

#[test]
fn sharded_eviction_prefers_the_writing_shard() {
    let mut store = ChironStore::with_shards(4, 2);
    let p0 = part("h0", 2);
    let p1 = part("h1", 2);
    assert_ne!(p0, p1, "pick hosts that hash to different shards");

    store.ingest_partition(p0, make_entry(30, "svc", "h0"));
    store.ingest_partition(p1, make_entry(10, "svc", "h1"));
    store.ingest_partition(p0, make_entry(40, "svc", "h0"));
    store.ingest_partition(p1, make_entry(20, "svc", "h1"));
    assert_eq!(store.len(), 4);
    store.ingest_partition(p0, make_entry(50, "svc", "h0"));
    assert_eq!(store.len(), 4);
    store.flush_indexer();

    let result = store.query_by_service("svc", 0, 100);
    assert_eq!(result.entries.len(), 4);
    let timestamps: Vec<_> = result.entries.iter().map(|e| e.timestamp).collect();
    assert_eq!(timestamps, vec![10, 20, 40, 50]);
    assert_nondecreasing_timestamps(&result.entries);
}

#[test]
fn hot_shard_evicts_own_entries_under_pressure() {
    let mut store = ChironStore::with_shards(12, 4);
    let p = part("hot-host", 4);
    // Fill all 12 slots into one shard.
    for ts in 0..12 {
        store.ingest_partition(p, make_entry(ts, "svc", "hot-host"));
    }
    assert_eq!(store.len(), 12);

    // The 13th entry forces eviction from the writing shard.
    store.ingest_partition(p, make_entry(12, "svc", "hot-host"));
    assert_eq!(store.len(), 12);
    store.flush_indexer();

    let result = store.query_by_service("svc", 0, i64::MAX);
    assert_eq!(result.entries.len(), 12);
    assert_eq!(result.entries.first().unwrap().timestamp, 1);
    assert_eq!(result.entries.last().unwrap().timestamp, 12);
    assert_nondecreasing_timestamps(&result.entries);
}

#[test]
fn query_results_only_guarantee_timestamp_order() {
    let mut store = ChironStore::with_shards(100, 4);
    store.ingest(make_entry(10, "svc", "h1"));
    store.ingest(make_entry(10, "svc", "h2"));
    store.ingest(make_entry(11, "svc", "h3"));
    store.flush_indexer();

    let result = store.query_by_service("svc", 0, i64::MAX);
    assert_eq!(result.entries.len(), 3);
    assert_nondecreasing_timestamps(&result.entries);

    let mut same_timestamp_hosts: Vec<_> = result
        .entries
        .iter()
        .filter(|entry| entry.timestamp == 10)
        .map(|entry| &*entry.host_id)
        .collect();
    same_timestamp_hosts.sort_unstable();
    assert_eq!(same_timestamp_hosts, vec!["h1", "h2"]);
}

#[test]
fn routing_is_the_standard_hash_modulo_the_partitions() {
    for host in ["h0", "h1", "host-0", "", "a much longer host name", "räksmörgås"] {
        let mut hasher = DefaultHasher::new();
        host.hash(&mut hasher);
        let hash = hasher.finish();
        for partitions in [2usize, 3, 4, 7, 64] {
            assert_eq!(
                partition_for_host(host, partitions),
                (hash as usize) % partitions
            );
        }
    }
}

#[test]
fn routing_with_one_partition_or_none_is_zero() {
    assert_eq!(partition_for_host("h1", 0), 0);
    assert_eq!(partition_for_host("h1", 1), 0);
}

#[test]
fn offsets_count_up_within_a_shard() {
    let mut store = ChironStore::with_shards(4, 2);
    assert_eq!(store.ingest_partition(0, make_entry(1, "s", "h")), 0);
    assert_eq!(store.ingest_partition(0, make_entry(2, "s", "h")), 1);
    assert_eq!(store.ingest_partition(1, make_entry(3, "s", "other")), 0);
    // Offsets go on counting past evictions.
    for ts in 4..10 {
        store.ingest_partition(0, make_entry(ts, "s", "h"));
    }
    assert_eq!(store.ingest_partition(0, make_entry(10, "s", "h")), 8);
}

#[test]
fn a_new_partition_gets_a_shard_and_the_others_stay() {
    let mut store = ChironStore::with_shards(10, 2);
    store.ingest_partition(1, make_entry(5, "svc", "h1"));
    assert!(store.can_ingest_partition(4, 1));
    assert!(store.admits_host(4, "h4"));
    assert_eq!(store.ingest_partition(4, make_entry(6, "svc", "h4")), 0);
    assert_eq!(store.shard_count(), 5);
    assert_eq!(store.shard_lens(), vec![0, 1, 0, 0, 1]);
    assert_eq!(store.capacity(), 10);
    assert_eq!(store.len(), 2);
    let found = store.query_by_service("svc", 0, 10);
    assert_eq!(timestamps(&found.entries), vec![5, 6]);
}

#[test]
fn an_empty_target_displaces_the_fullest_shard() {
    let mut store = ChironStore::with_shards(6, 3);
    for ts in 0..4 {
        store.ingest_partition(0, make_entry(ts, "svc", "h0"));
    }
    for ts in 10..12 {
        store.ingest_partition(1, make_entry(ts, "svc", "h1"));
    }
    assert_eq!(store.shard_lens(), vec![4, 2, 0]);
    store.ingest_partition(2, make_entry(20, "svc", "h2"));
    assert_eq!(store.shard_lens(), vec![3, 2, 1]);
    let found = store.query_by_service("svc", 0, 100);
    assert_eq!(timestamps(&found.entries), vec![1, 2, 3, 10, 11, 20]);
}

#[test]
fn of_two_fullest_shards_the_last_one_gives_way() {
    let mut store = ChironStore::with_shards(6, 3);
    for ts in 0..3 {
        store.ingest_partition(0, make_entry(ts, "svc", "h0"));
        store.ingest_partition(1, make_entry(10 + ts, "svc", "h1"));
    }
    store.ingest_partition(2, make_entry(20, "svc", "h2"));
    assert_eq!(store.shard_lens(), vec![3, 2, 1]);
}

#[test]
fn eviction_is_oldest_first() {
    let mut store = ChironStore::new(3);
    for ts in [50, 40, 30, 20, 10] {
        store.ingest(make_entry(ts, "svc", "h"));
    }
    // The first two to come in are gone, whatever their timestamps.
    let found = store.query_by_host("h", 0, 100);
    assert_eq!(timestamps(&found.entries), vec![10, 20, 30]);
}

#[test]
fn a_batch_displaces_earlier_entries_of_its_own_shard_first() {
    let mut store = ChironStore::with_shards(4, 2);
    store.ingest_partition(0, make_entry(1, "svc", "h0"));
    store.ingest_partition(0, make_entry(2, "svc", "h0"));
    store.ingest_partition(1, make_entry(3, "svc", "h1"));
    let batch = (10..13).map(|ts| make_entry(ts, "svc", "h0")).collect();
    assert_eq!(store.ingest_partition_batch(0, batch), 3);
    // Two slots short: the shard gives up both its entries, the other keeps its.
    assert_eq!(store.len(), 4);
    assert_eq!(store.shard_lens(), vec![3, 1]);
    let found = store.query_by_service("svc", 0, 100);
    assert_eq!(timestamps(&found.entries), vec![3, 10, 11, 12]);
}

#[test]
fn a_batch_beyond_the_capacity_stays_within_it() {
    let mut store = ChironStore::new(2);
    let batch = (1..4).map(|ts| make_entry(ts, "s", "a")).collect();
    assert_eq!(store.ingest_partition_batch(0, batch), 3);
    assert_eq!(store.shard_lens(), vec![2]);
    assert_eq!(store.len(), 2);
    assert_eq!(store.capacity(), 2);
    assert_eq!(timestamps(&store.query_by_host("a", 0, 100).entries), vec![2, 3]);

    let batch = (10..15).map(|ts| make_entry(ts, "s", "a")).collect();
    assert_eq!(store.ingest_partition_batch(0, batch), 5);
    assert_eq!(store.shard_lens(), vec![2]);
    assert_eq!(store.len(), 2);
    assert_eq!(
        timestamps(&store.query_by_service("s", 0, 100).entries),
        vec![13, 14]
    );
    // All eight entries had an offset of their own.
    assert_eq!(store.ingest_partition(0, make_entry(20, "s", "a")), 8);
}

#[test]
fn no_entry_of_a_batch_displaces_another() {
    let mut store = ChironStore::with_shards(4, 2);
    for ts in [1, 2, 3] {
        store.ingest_partition(0, make_entry(ts, "s", "a"));
    }
    store.ingest_partition(1, make_entry(4, "s", "b"));
    let batch = (5..8).map(|ts| make_entry(ts, "s", "b")).collect();
    assert_eq!(store.ingest_partition_batch(1, batch), 3);
    // Three slots short: one entry of the batch's own shard goes, and then two of the
    // fullest.
    assert_eq!(store.shard_lens(), vec![1, 3]);
    assert_eq!(store.len(), 4);
    assert_eq!(
        timestamps(&store.query_by_service("s", 0, 100).entries),
        vec![3, 5, 6, 7]
    );
    assert_eq!(timestamps(&store.query_by_host("b", 0, 100).entries), vec![5, 6, 7]);
    assert_eq!(timestamps(&store.query_by_host("a", 0, 100).entries), vec![3]);
}

#[test]
fn a_batch_of_the_capacity_takes_the_whole_store() {
    let mut store = ChironStore::with_shards(4, 2);
    for ts in 0..4 {
        store.ingest_partition(0, make_entry(ts, "svc", "h0"));
    }
    let batch = (10..14).map(|ts| make_entry(ts, "svc", "h1")).collect();
    assert_eq!(store.ingest_partition_batch(1, batch), 4);
    assert_eq!(store.shard_lens(), vec![0, 4]);
    // A longer one keeps its newest entries.
    let batch = (20..26).map(|ts| make_entry(ts, "svc", "h0")).collect();
    assert_eq!(store.ingest_partition_batch(0, batch), 6);
    assert_eq!(store.shard_lens(), vec![4, 0]);
    assert_eq!(store.len(), 4);
    assert_eq!(
        timestamps(&store.query_by_service("svc", 0, 100).entries),
        vec![22, 23, 24, 25]
    );
}

#[test]
fn a_host_is_found_in_whichever_shard_it_is() {
    let mut store = ChironStore::with_shards(4, 2);
    let other = 1 - part("h0", 2);
    store.ingest_partition(other, make_entry(10, "svc", "h0"));
    let found = store.query_by_host("h0", 0, 100);
    assert_eq!(timestamps(&found.entries), vec![10]);
    let found = store.query_by_service_and_host("svc", "h0", 0, 100);
    assert_eq!(timestamps(&found.entries), vec![10]);
    assert!(store
        .query_by_service_and_host("other", "h0", 0, 100)
        .entries
        .is_empty());
    assert!(store.query_by_host("h1", 0, 100).entries.is_empty());
    // New shards move the shard that owns a host, not its entries.
    store.ingest_partition(6, make_entry(11, "svc", "h6"));
    assert_eq!(timestamps(&store.query_by_host("h0", 0, 100).entries), vec![10]);
    assert_eq!(timestamps(&store.query_by_host("h6", 0, 100).entries), vec![11]);
}

#[test]
fn a_host_may_not_enter_a_second_shard() {
    let mut store = ChironStore::with_shards(4, 2);
    let home = part("h", 2);
    let other = 1 - home;
    assert!(store.admits_host(0, "h") && store.admits_host(1, "h"));
    store.ingest_partition(other, make_entry(1, "svc", "h"));
    assert!(store.admits_host(other, "h"));
    assert!(!store.admits_host(home, "h"));
    assert!(!store.admits_host(7, "h"));
    assert!(store.admits_host(home, "g"));
    assert_eq!(store.try_ingest(make_entry(2, "svc", "h")), None);
    assert_eq!(store.len(), 1);
    // Once its last entry has been evicted, it may.
    for ts in 10..14 {
        store.ingest_partition(other, make_entry(ts, "svc", "g"));
    }
    assert!(store.admits_host(home, "h"));
    assert_eq!(store.try_ingest(make_entry(3, "svc", "h")), Some(0));
}

#[test]
fn a_store_never_gets_shorter() {
    let mut store = ChironStore::with_shards(5, 1);
    let mut before = 0;
    for step in 0..20i64 {
        let count = step % 4;
        let batch = (0..count)
            .map(|k| make_entry(step * 10 + k, "svc", "h"))
            .collect();
        store.ingest_partition_batch(0, batch);
        assert!(store.len() >= before);
        assert!(store.len() <= store.capacity());
        before = store.len();
    }
    assert_eq!(before, 5);
}

#[test]
fn an_empty_batch_changes_nothing() {
    let mut store = ChironStore::with_shards(4, 2);
    assert_eq!(store.ingest_partition_batch(9, Vec::new()), 0);
    assert_eq!(store.shard_count(), 2);
    assert_eq!(store.len(), 0);
}

#[test]
fn evicted_entries_are_not_found() {
    let mut store = ChironStore::new(2);
    store.ingest(make_entry(1, "old", "gone"));
    store.ingest(make_entry(2, "svc", "h"));
    store.ingest(make_entry(3, "svc", "h"));
    assert!(store.query_by_service("old", 0, 10).entries.is_empty());
    assert!(store.query_by_host("gone", 0, 10).entries.is_empty());
    assert_eq!(store.query_by_service("svc", 0, 10).entries.len(), 2);
}

#[test]
fn checked_ingest_gives_the_offset() {
    let mut store = ChironStore::new(2);
    assert_eq!(store.try_ingest(make_entry(1, "svc", "h")), Some(0));
    assert_eq!(store.try_ingest(make_entry(2, "svc", "h")), Some(1));
    assert_eq!(store.len(), 2);
    assert!(store.can_ingest_partition(0, 10));
    assert!(store.takes_batches_of(10));
}

#[test]
fn entries_come_back_as_they_were() {
    let mut store = ChironStore::new(2);
    let entry = LogEntry {
        timestamp: -7,
        service_name: "säkerhet".to_string(),
        host_id: "värd".to_string(),
        message: "a message\nof two lines".to_string(),
    };
    store.ingest(entry.clone());
    let found = store.query_by_service_and_host("säkerhet", "värd", -10, 0);
    assert_eq!(found.entries.len(), 1);
    let back = LogEntry::from(&found.entries[0]);
    assert_eq!(back.timestamp, entry.timestamp);
    assert_eq!(back.service_name, entry.service_name);
    assert_eq!(back.host_id, entry.host_id);
    assert_eq!(back.message, entry.message);
}

#[test]
fn a_query_by_service_and_host_narrows_both() {
    let mut store = ChironStore::with_shards(100, 4);
    for ts in 0..40 {
        let svc = format!("svc-{}", ts % 3);
        let host = format!("host-{}", ts % 5);
        store.ingest(make_entry(ts, &svc, &host));
    }
    for s in 0..3 {
        for h in 0..5 {
            let svc = format!("svc-{}", s);
            let host = format!("host-{}", h);
            let pair = store.query_by_service_and_host(&svc, &host, 3, 30);
            let by_host: Vec<i64> = store
                .query_by_host(&host, 3, 30)
                .entries
                .iter()
                .filter(|e| &*e.service_name == svc.as_str())
                .map(|e| e.timestamp)
                .collect();
            let by_service: Vec<i64> = store
                .query_by_service(&svc, 3, 30)
                .entries
                .iter()
                .filter(|e| &*e.host_id == host.as_str())
                .map(|e| e.timestamp)
                .collect();
            assert_eq!(timestamps(&pair.entries), by_host);
            assert_eq!(timestamps(&pair.entries), by_service);
        }
    }
}

#[test]
fn producers_and_store_choose_the_same_shard() {
    for host in ["h0", "h1", "h2", "hot-host", "another"] {
        let mut by_host = ChironStore::with_shards(12, 4);
        let mut by_partition = ChironStore::with_shards(12, 4);
        by_host.ingest(make_entry(1, "svc", host));
        by_partition.ingest_partition(part(host, 4), make_entry(1, "svc", host));
        assert_eq!(by_host.shard_lens(), by_partition.shard_lens());
        assert_eq!(by_partition.query_by_host(host, 0, 10).entries.len(), 1);
    }
}

#[test]
fn the_store_counts_what_it_holds() {
    let mut store = ChironStore::with_shards(9, 3);
    for step in 0..60u32 {
        let partition = step * step % 5;
        let host = format!("h{}", partition);
        store.ingest_partition(partition, make_entry(step as i64, "svc", &host));
        let held: usize = store.shard_lens().iter().sum();
        assert_eq!(store.len(), held);
        assert!(store.len() <= store.capacity());
    }
    assert_eq!(store.len(), 9);
    assert_eq!(store.shard_count(), 5);
}

#[test]
fn a_quiet_shard_keeps_its_entries() {
    let mut store = ChironStore::with_shards(6, 2);
    store.ingest_partition(1, make_entry(1, "quiet", "q"));
    for ts in 0..100 {
        store.ingest_partition(0, make_entry(ts, "noisy", "n"));
    }
    assert_eq!(store.shard_lens(), vec![5, 1]);
    assert_eq!(store.query_by_service("quiet", 0, 10).entries.len(), 1);
    assert_eq!(
        timestamps(&store.query_by_service("noisy", 0, 1000).entries),
        vec![95, 96, 97, 98, 99]
    );
}
