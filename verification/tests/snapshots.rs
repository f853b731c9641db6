use chiron::chiron::ChironStore;
use chiron::log_entry::LogEntry;
use chiron::snapshot::{KafkaOffsets, Snapshot, SnapshotError, SnapshotShard};

fn make_entry(ts: i64, svc: &str, host: &str) -> LogEntry {
    LogEntry {
        timestamp: ts,
        service_name: svc.to_string(),
        host_id: host.to_string(),
        message: format!("msg@{}", ts),
    }
}

#[test]
fn snapshot_and_restore() {
    let mut store = ChironStore::with_shards(12, 3);
    store.ingest(make_entry(10, "auth", "h1"));
    store.ingest(make_entry(20, "payment", "h2"));
    store.ingest(make_entry(30, "auth", "h1"));
    store.flush_indexer();

    let mut offsets = KafkaOffsets::new();
    offsets.set("logs", 0, 99999);
    offsets.set("logs", 1, 88888);

    let data = store.save_snapshot(&offsets);

    let (restored, restored_offsets) = ChironStore::from_snapshot(&data).unwrap();
    assert_eq!(restored.len(), 3);

    let result = restored.query_by_service("auth", 0, 100);
    assert_eq!(result.entries.len(), 2);

    let result = restored.query_by_host("h1", 0, 100);
    assert_eq!(result.entries.len(), 2);

    let result = restored.query_by_service_and_host("auth", "h1", 0, 100);
    assert_eq!(result.entries.len(), 2);

    assert_eq!(restored.shard_count(), 3);
    assert_eq!(restored_offsets.get("logs", 0), Some(99999));
    assert_eq!(restored_offsets.get("logs", 1), Some(88888));
    assert_eq!(restored.capacity(), 12);
    assert!(restored_offsets == offsets);
}

fn two_shards() -> Vec<SnapshotShard> {
    vec![
        SnapshotShard {
            shard_id: 0,
            capacity: 250,
            next_offset: 3,
            entries: vec![
                make_entry(100, "auth", "h0"),
                make_entry(200, "auth", "h0"),
                make_entry(300, "payment", "h0"),
            ],
        },
        SnapshotShard {
            shard_id: 1,
            capacity: 250,
            next_offset: 2,
            entries: vec![
                make_entry(150, "auth", "h1"),
                make_entry(250, "payment", "h1"),
            ],
        },
    ]
}

#[test]
fn sharded_snapshot_roundtrip() {
    let shards = two_shards();

    let mut offsets = KafkaOffsets::new();
    offsets.set("logs", 0, 45230);
    offsets.set("logs", 1, 38901);

    // The current format, and the legacy one with its total in the header.
    for data in [
        Snapshot::save_sharded(&shards, &offsets),
        Snapshot::save_legacy_sharded(500, &shards, &offsets),
    ] {
        let (capacity, restored, offsets_loaded) = Snapshot::load_sharded(&data).unwrap();

        assert_eq!(capacity, 500);
        assert_eq!(restored.len(), 2);
        assert_eq!(restored[0].shard_id, 0);
        assert_eq!(restored[0].entries.len(), 3);
        assert_eq!(restored[0].next_offset, 3);
        assert_eq!(restored[0].entries[0].timestamp, 100);
        assert_eq!(restored[1].shard_id, 1);
        assert_eq!(restored[1].entries.len(), 2);
        assert_eq!(restored[1].next_offset, 2);
        assert_eq!(restored[1].entries[0].service_name, "auth");

        assert_eq!(offsets_loaded.get("logs", 0), Some(45230));
        assert_eq!(offsets_loaded.get("logs", 1), Some(38901));
        assert_eq!(offsets_loaded.get("logs", 2), None);
    }
}

#[test]
fn snapshot_bytes_are_exact() {
    let shards = vec![SnapshotShard {
        shard_id: 7,
        capacity: 258,
        next_offset: 5,
        entries: vec![LogEntry {
            timestamp: -2,
            service_name: "ab".to_string(),
            host_id: "".to_string(),
            message: "é".to_string(),
        }],
    }];
    let mut offsets = KafkaOffsets::new();
    offsets.set("t", 3, 9);
    let data = Snapshot::save_sharded(&shards, &offsets);
    let mut wanted: Vec<u8> = Vec::new();
    wanted.extend_from_slice(b"CHIRON05");
    wanted.extend_from_slice(&[1, 0, 0, 0]);
    wanted.extend_from_slice(&[7, 0, 0, 0]);
    wanted.extend_from_slice(&[2, 1, 0, 0, 0, 0, 0, 0]);
    wanted.extend_from_slice(&[5, 0, 0, 0, 0, 0, 0, 0]);
    wanted.extend_from_slice(&[1, 0, 0, 0, 0, 0, 0, 0]);
    wanted.extend_from_slice(&[254, 255, 255, 255, 255, 255, 255, 255]);
    wanted.extend_from_slice(&[2, 0, 0, 0, b'a', b'b']);
    wanted.extend_from_slice(&[0, 0, 0, 0]);
    wanted.extend_from_slice(&[2, 0, 0, 0, 0xc3, 0xa9]);
    wanted.extend_from_slice(&[1, 0, 0, 0]);
    wanted.extend_from_slice(&[1, 0, 0, 0, b't']);
    wanted.extend_from_slice(&[1, 0, 0, 0]);
    wanted.extend_from_slice(&[3, 0, 0, 0]);
    wanted.extend_from_slice(&[9, 0, 0, 0, 0, 0, 0, 0]);
    assert_eq!(data, wanted);

    let legacy = Snapshot::save_legacy_sharded(258, &shards, &offsets);
    assert_eq!(&legacy[..8], b"CHIRON04");
    assert_eq!(&legacy[8..16], &[2, 1, 0, 0, 0, 0, 0, 0]);
    assert_eq!(&legacy[16..20], &[1, 0, 0, 0]);
    assert_eq!(&legacy[20..24], &[7, 0, 0, 0]);
    assert_eq!(&legacy[24..32], &[5, 0, 0, 0, 0, 0, 0, 0]);
    assert_eq!(&legacy[32..], &wanted[32..]);
}

#[test]
fn legacy_shares_are_divided_as_equally_as_they_can_be() {
    let mut shards = two_shards();
    shards.push(SnapshotShard {
        shard_id: 2,
        capacity: 0,
        next_offset: 0,
        entries: Vec::new(),
    });
    let data = Snapshot::save_legacy_sharded(11, &shards, &KafkaOffsets::new());
    let (total, restored, _) = Snapshot::load_sharded(&data).unwrap();
    assert_eq!(total, 11);
    let shares: Vec<usize> = restored.iter().map(|s| s.capacity).collect();
    assert_eq!(shares, vec![4, 4, 3]);
    let (store, _) = ChironStore::from_snapshot(&data).unwrap();
    assert_eq!(store.capacity(), 11);
    assert_eq!(store.len(), 5);
}

#[test]
fn every_truncated_snapshot_is_refused() {
    let mut offsets = KafkaOffsets::new();
    offsets.set("logs", 0, 1);
    let shards = two_shards();
    for data in [
        Snapshot::save_sharded(&shards, &offsets),
        Snapshot::save_legacy_sharded(500, &shards, &offsets),
    ] {
        for len in 0..data.len() {
            assert_eq!(
                Snapshot::load_sharded(&data[..len]).err(),
                Some(SnapshotError::UnexpectedEof)
            );
        }
        // What follows a snapshot is ignored.
        let mut longer = data.clone();
        longer.extend_from_slice(&[1, 2, 3]);
        assert!(Snapshot::load_sharded(&longer).is_ok());
    }
}

#[test]
fn a_wrong_magic_is_refused() {
    let mut data = Snapshot::save_sharded(&two_shards(), &KafkaOffsets::new());
    data[7] = b'3';
    assert_eq!(
        Snapshot::load_sharded(&data).err(),
        Some(SnapshotError::InvalidMagic)
    );
    assert!(matches!(
        ChironStore::from_snapshot(&data),
        Err(SnapshotError::InvalidMagic)
    ));
}

#[test]
fn text_that_is_not_utf8_is_refused() {
    let shards = vec![SnapshotShard {
        shard_id: 0,
        capacity: 1,
        next_offset: 1,
        entries: vec![make_entry(1, "abc", "h")],
    }];
    let mut data = Snapshot::save_sharded(&shards, &KafkaOffsets::new());
    let at = data.windows(3).position(|w| w == b"abc").unwrap();
    data[at + 1] = 0xff;
    assert_eq!(
        Snapshot::load_sharded(&data).err(),
        Some(SnapshotError::InvalidUtf8)
    );
}

#[test]
fn a_snapshot_without_shards_restores_no_store() {
    let data = Snapshot::save_sharded(&[], &KafkaOffsets::new());
    assert!(Snapshot::load_sharded(&data).is_ok());
    assert!(matches!(
        ChironStore::from_snapshot(&data),
        Err(SnapshotError::NoShards)
    ));
}

#[test]
fn a_next_offset_below_the_entry_count_is_refused() {
    let mut shards = two_shards();
    shards[1].next_offset = 1;
    let data = Snapshot::save_sharded(&shards, &KafkaOffsets::new());
    assert!(matches!(
        ChironStore::from_snapshot(&data),
        Err(SnapshotError::OffsetBelowEntryCount)
    ));
}

#[test]
fn a_host_in_two_shards_is_refused() {
    let mut shards = two_shards();
    shards[1].entries[0].host_id = shards[0].entries[2].host_id.clone();
    let data = Snapshot::save_sharded(&shards, &KafkaOffsets::new());
    assert!(Snapshot::load_sharded(&data).is_ok());
    assert!(matches!(
        ChironStore::from_snapshot(&data),
        Err(SnapshotError::HostInTwoShards)
    ));
}

#[test]
fn shares_beyond_the_largest_capacity_are_refused() {
    let mut shards = two_shards();
    shards[0].capacity = usize::MAX;
    let data = Snapshot::save_sharded(&shards, &KafkaOffsets::new());
    assert_eq!(
        Snapshot::load_sharded(&data).err(),
        Some(SnapshotError::CapacityOverflow)
    );
}

#[test]
fn shards_are_restored_in_id_order() {
    let mut shards = two_shards();
    shards.swap(0, 1);
    let data = Snapshot::save_sharded(&shards, &KafkaOffsets::new());
    let (store, _) = ChironStore::from_snapshot(&data).unwrap();
    assert_eq!(store.shard_lens(), vec![3, 2]);
}

#[test]
fn offsets_go_on_after_a_restore() {
    let mut store = ChironStore::with_shards(4, 2);
    for ts in 0..7 {
        store.ingest_partition(0, make_entry(ts, "svc", "h0"));
    }
    store.ingest_partition(3, make_entry(9, "svc", "h3"));
    let data = store.save_snapshot(&KafkaOffsets::new());
    let (mut restored, _) = ChironStore::from_snapshot(&data).unwrap();
    assert_eq!(restored.shard_lens(), store.shard_lens());
    assert_eq!(restored.len(), store.len());
    assert_eq!(restored.capacity(), store.capacity());
    assert_eq!(restored.indexer_lag(), 0);
    assert_eq!(restored.ingest_partition(0, make_entry(8, "svc", "h0")), 7);
    // Saving what was restored gives the same bytes.
    let (again, offsets) = ChironStore::from_snapshot(&data).unwrap();
    assert_eq!(again.save_snapshot(&offsets), data);
}

#[test]
fn kafka_offsets_are_set_merged_and_compared() {
    let mut a = KafkaOffsets::new();
    a.set("logs", 0, 1);
    a.set("logs", 1, 2);
    a.set("audit", 0, 3);
    a.set("logs", 0, 9);
    assert_eq!(a.get("logs", 0), Some(9));
    assert_eq!(a.get("audit", 0), Some(3));
    assert_eq!(a.get("audit", 1), None);
    assert_eq!(a.get("other", 0), None);
    assert_eq!(a.inner().len(), 2);
    assert_eq!(a.inner()[0].topic(), "logs");
    assert_eq!(a.inner()[0].partitions(), &[(0, 9), (1, 2)]);

    let mut b = KafkaOffsets::new();
    b.set("audit", 0, 3);
    b.set("logs", 1, 2);
    assert!(a != b);
    b.set("logs", 0, 9);
    assert!(a == b);
    assert!(a.clone() == a);

    let mut c = KafkaOffsets::new();
    c.set("logs", 1, 20);
    c.set("new", 5, 6);
    a.merge(&c);
    assert_eq!(a.get("logs", 0), Some(9));
    assert_eq!(a.get("logs", 1), Some(20));
    assert_eq!(a.get("new", 5), Some(6));
}

#[test]
fn committed_positions_without_an_offset_are_passed_over() {
    let mut offsets = KafkaOffsets::new();
    offsets.record_committed("logs", &[(0, 12), (1, -1), (2, 0)]);
    assert_eq!(offsets.get("logs", 0), Some(12));
    assert_eq!(offsets.get("logs", 1), None);
    assert_eq!(offsets.get("logs", 2), Some(0));
}
