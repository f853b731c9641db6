use chiron::inverted_index::InvertedIndex;
use chiron::log_entry::{LogEntry, SharedLogEntry};
use chiron::offsets::intersect_sorted;
use chiron::partition::{PartitionBuffer, PartitionShard};
use chiron::ring_buffer::RingBuffer;
use chiron::snapshot::{RestoredShard, SnapshotError};
use chiron::stats::percentile;

fn make_entry(ts: i64) -> LogEntry {
    LogEntry {
        timestamp: ts,
        service_name: "svc".into(),
        host_id: "h1".into(),
        message: format!("msg@{}", ts),
    }
}

#[test]
fn insert_and_get() {
    let mut idx = InvertedIndex::new();
    idx.insert("svcA", 0);
    idx.insert("svcA", 3);
    idx.insert("svcB", 1);
    assert_eq!(idx.get("svcA"), Some([0u64, 3].as_slice()));
    assert_eq!(idx.get("svcB"), Some([1u64].as_slice()));
    assert_eq!(idx.get("svcC"), None);
}

#[test]
fn purge_below() {
    let mut idx = InvertedIndex::new();
    for o in 0..10 {
        idx.insert("svc", o);
    }
    idx.purge_below(5);
    assert_eq!(idx.get("svc"), Some([5u64, 6, 7, 8, 9].as_slice()));
}

#[test]
fn purging_all_offsets_of_a_key_forgets_the_key() {
    let mut idx = InvertedIndex::new();
    idx.insert("a", 1);
    idx.insert("b", 2);
    idx.insert("c", 7);
    idx.purge_below(5);
    assert_eq!(idx.get("a"), None);
    assert_eq!(idx.get("b"), None);
    assert_eq!(idx.get("c"), Some([7u64].as_slice()));
    idx.insert("a", 9);
    assert_eq!(idx.get("a"), Some([9u64].as_slice()));
}

#[test]
fn push_and_get() {
    let mut rb = RingBuffer::new(4);
    let o0 = rb.push(make_entry(100));
    let o1 = rb.push(make_entry(200));
    assert_eq!(o0, 0);
    assert_eq!(o1, 1);
    assert_eq!(rb.get(0).unwrap().timestamp, 100);
    assert_eq!(rb.get(1).unwrap().timestamp, 200);
    assert_eq!(rb.len(), 2);
}

#[test]
fn wrap_around_evicts_oldest() {
    let mut rb = RingBuffer::new(3);
    rb.push(make_entry(1));
    rb.push(make_entry(2));
    rb.push(make_entry(3));
    assert!(rb.is_full());
    // This overwrites offset 0.
    rb.push(make_entry(4));
    assert!(rb.get(0).is_none());
    assert_eq!(rb.get(3).unwrap().timestamp, 4);
    assert_eq!(rb.len(), 3);
}

#[test]
fn evict_head() {
    let mut rb = RingBuffer::new(5);
    for i in 0..5 {
        rb.push(make_entry(i));
    }
    let evicted = rb.evict_head(2);
    assert_eq!(evicted, 2);
    assert!(rb.get(0).is_none());
    assert!(rb.get(1).is_none());
    assert_eq!(rb.get(2).unwrap().timestamp, 2);
    assert_eq!(rb.len(), 3);
}

#[test]
fn ring_offsets_and_iteration() {
    let mut rb = RingBuffer::new(3);
    for ts in 0..8 {
        rb.push(make_entry(ts));
    }
    assert_eq!(rb.oldest_offset(), 5);
    assert_eq!(rb.next_offset(), 8);
    assert_eq!(rb.capacity(), 3);
    assert_eq!(rb.evict_head(1), 1);
    let mut iter = rb.iter();
    let first = iter.next().unwrap();
    assert_eq!((first.0, first.1.timestamp), (6, 6));
    let second = iter.next().unwrap();
    assert_eq!((second.0, second.1.timestamp), (7, 7));
    assert!(iter.next().is_none());
    assert!(iter.next().is_none());
    assert_eq!(rb.evict_head(10), 2);
    assert_eq!(rb.len(), 0);
    assert!(rb.iter().next().is_none());
}

#[test]
fn a_restored_ring_goes_on_where_it_was() {
    let entries: Vec<LogEntry> = (7..10).map(make_entry).collect();
    let mut rb = RingBuffer::restore(4, 10, 3, entries);
    assert_eq!(rb.oldest_offset(), 7);
    assert_eq!(rb.get(7).unwrap().timestamp, 7);
    assert_eq!(rb.get(9).unwrap().timestamp, 9);
    assert!(rb.get(6).is_none());
    assert!(rb.get(10).is_none());
    assert_eq!(rb.push(make_entry(10)), 10);
    assert_eq!(rb.push(make_entry(11)), 11);
    assert!(rb.get(7).is_none());
    assert_eq!(rb.get(8).unwrap().timestamp, 8);
    assert_eq!(rb.len(), 4);
}

#[test]
fn sorted_offsets_are_intersected() {
    let a = [1u64, 3, 5, 7];
    let b = [2u64, 3, 4, 7, 9];
    assert_eq!(intersect_sorted(Some(&a), Some(&b)), vec![3, 7]);
    assert!(intersect_sorted(Some(&a), None).is_empty());
    assert!(intersect_sorted(None, Some(&b)).is_empty());
}

#[test]
fn a_buffer_refuses_more_entries_than_offsets() {
    let entries = vec![make_entry(1), make_entry(2)];
    assert_eq!(
        PartitionBuffer::from_snapshot(1, entries).err(),
        Some(SnapshotError::OffsetBelowEntryCount)
    );
    let buffer = PartitionBuffer::from_snapshot(5, vec![make_entry(1), make_entry(2)]).unwrap();
    assert_eq!(buffer.oldest_offset(), 3);
    assert_eq!(buffer.get(4).unwrap().timestamp, 2);
    assert!(buffer.get(2).is_none());
    assert!(buffer.get(5).is_none());
}

#[test]
fn percentiles_of_sorted_values() {
    assert_eq!(percentile(&[], 500), 0);
    let values: Vec<u64> = (0..101).map(|v| v * 10).collect();
    assert_eq!(percentile(&values, 0), 0);
    assert_eq!(percentile(&values, 500), 500);
    assert_eq!(percentile(&values, 999), 990);
    assert_eq!(percentile(&values, 1000), 1000);
    assert_eq!(percentile(&[4], 950), 4);
}

#[test]
fn restored_shard_lags_until_it_is_flushed() {
    let mut shard = PartitionShard::from_restored(RestoredShard {
        shard_id: 3,
        capacity: 8,
        next_offset: 5,
        entries: vec![make_entry(10), make_entry(20)],
    })
    .unwrap();
    assert_eq!(shard.len(), 2);
    assert_eq!(shard.indexer_lag(), 5);
    shard.flush_indexer();
    assert_eq!(shard.indexer_lag(), 0);
    assert_eq!(shard.len(), 2);
    let found = shard.query_by_service("svc", 0, 100);
    assert_eq!(found.len(), 2);
    assert_eq!(found[0].timestamp, 10);
    assert_eq!(found[1].timestamp, 20);
    shard.flush_indexer();
    assert_eq!(shard.query_by_host("h1", 15, 100).len(), 1);
}

#[test]
fn a_shard_takes_a_batch_in_its_order() {
    let mut shard = PartitionShard::new(2, 8);
    assert_eq!(shard.ingest_batch(Vec::new()), 0);
    let batch = (0..3).map(|ts| SharedLogEntry::from(make_entry(ts))).collect();
    assert_eq!(shard.ingest_batch(batch), 3);
    assert_eq!(shard.next_offset(), 3);
    assert_eq!(shard.indexer_lag(), 0);
    assert!(shard.holds_host("h1") && !shard.holds_host("h2"));
    let found: Vec<i64> = shard
        .query_by_host("h1", 1, 9)
        .iter()
        .map(|e| e.timestamp)
        .collect();
    assert_eq!(found, vec![1, 2]);
    assert_eq!(shard.evict_head(5), 3);
    assert!(!shard.holds_host("h1"));
}
