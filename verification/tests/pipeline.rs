use chiron::chiron::ChironStore;
use chiron::ingest_batch_by_partition;
use chiron::kafka::{payload_text, PayloadError};
use chiron::log_entry::LogEntry;
use chiron::pipeline::{Action, ConsumeLoop, PipelineConfig, PipelineStats, RawSettings};
use chiron::settings::{env_parsed, Setting};
use chiron::snapshot::KafkaOffsets;
use chiron::{env_string, env_u32, env_u64, env_usize};

fn make_entry(ts: i64, svc: &str, host: &str) -> LogEntry {
    LogEntry {
        timestamp: ts,
        service_name: svc.to_string(),
        host_id: host.to_string(),
        message: format!("log@{}", ts),
    }
}

fn no_settings() -> RawSettings {
    RawSettings {
        partitions: None,
        num_partitions: None,
        capacity: None,
        ring_buffer_capacity: None,
        brokers: None,
        topic: None,
        consumer_group: None,
        consumer_threads: None,
        consumer_batch_size: None,
        consumer_poll_ms: None,
        consumer_idle_ms: None,
        index_flush_interval_ms: None,
    }
}

#[test]
fn numbers_are_read_or_defaulted() {
    assert_eq!(env_u32(None, 7), 7);
    assert_eq!(env_u32(Some("12"), 7), 12);
    assert_eq!(env_u32(Some("+12"), 7), 12);
    assert_eq!(env_u32(Some("4294967295"), 7), 4294967295);
    assert_eq!(env_u32(Some("4294967296"), 7), 7);
    assert_eq!(env_u32(Some(""), 7), 7);
    assert_eq!(env_u32(Some("+"), 7), 7);
    assert_eq!(env_u32(Some("-1"), 7), 7);
    assert_eq!(env_u32(Some(" 1"), 7), 7);
    assert_eq!(env_u32(Some("1_000"), 7), 7);
    assert_eq!(env_u64(Some("18446744073709551615"), 7), u64::MAX);
    assert_eq!(env_u64(Some("18446744073709551616"), 7), 7);
    assert_eq!(env_u64(Some("0000000000000000000000000000001"), 7), 1);
    assert_eq!(env_usize(Some("256"), 7), 256);
    assert_eq!(env_usize(Some("x"), 7), 7);
    assert_eq!(env_string(None, "d"), "d");
    assert_eq!(env_string(Some("v"), "d"), "v");
}

#[test]
fn an_invalid_setting_is_told_from_a_missing_one() {
    assert_eq!(env_parsed(None, 100), Setting::Missing);
    assert_eq!(env_parsed(Some("101"), 100), Setting::Invalid);
    assert_eq!(env_parsed(Some("ten"), 100), Setting::Invalid);
    assert_eq!(env_parsed(Some("100"), 100), Setting::Number(100));
}

#[test]
fn defaults_of_the_configuration() {
    let config = PipelineConfig::from_env(&no_settings());
    assert_eq!(config.brokers, "localhost:9092");
    assert_eq!(config.topic, "chiron-logs");
    assert_eq!(config.num_partitions, 4);
    assert_eq!(config.capacity, 100_000);
    assert_eq!(config.consumer_group, "chiron-pipeline");
    assert_eq!(config.consumer_threads, 4);
    assert_eq!(config.consumer_batch_size, 256);
    assert_eq!(config.consumer_poll_timeout_ms, 200);
    assert_eq!(config.consumer_idle_timeout_ms, 5_000);
    assert_eq!(config.index_flush_interval_ms, 50);
}

#[test]
fn settings_override_each_other() {
    let mut raw = no_settings();
    raw.num_partitions = Some("8".to_string());
    raw.ring_buffer_capacity = Some("250000".to_string());
    raw.consumer_poll_ms = Some("0".to_string());
    raw.consumer_batch_size = Some("0".to_string());
    let config = PipelineConfig::from_env(&raw);
    assert_eq!(config.num_partitions, 8);
    assert_eq!(config.consumer_threads, 8);
    assert_eq!(config.capacity, 250_000);
    assert_eq!(config.consumer_poll_timeout_ms, 1);
    assert_eq!(config.consumer_batch_size, 1);
    raw.partitions = Some("2".to_string());
    raw.capacity = Some("10".to_string());
    raw.consumer_threads = Some("0".to_string());
    raw.topic = Some("t".to_string());
    let config = PipelineConfig::from_env(&raw);
    assert_eq!(config.num_partitions, 2);
    assert_eq!(config.capacity, 10);
    assert_eq!(config.consumer_threads, 1);
    assert_eq!(config.topic, "t");
    raw.partitions = Some("many".to_string());
    assert_eq!(PipelineConfig::from_env(&raw).num_partitions, 8);
}

#[test]
fn a_batch_is_ingested_partition_by_partition() {
    let mut store = ChironStore::with_shards(8, 2);
    let mut batch = vec![
        (make_entry(1, "svc", "h1"), 1u32),
        (make_entry(2, "svc", "h0"), 0),
        (make_entry(3, "svc", "h1"), 1),
        (make_entry(4, "svc", "h3"), 3),
        (make_entry(5, "svc", "h0"), 0),
    ];
    ingest_batch_by_partition(&mut store, &mut batch);
    assert!(batch.is_empty());
    assert_eq!(store.shard_lens(), vec![2, 2, 0, 1]);
    assert_eq!(store.len(), 5);
    ingest_batch_by_partition(&mut store, &mut batch);
    assert_eq!(store.len(), 5);
    let found: Vec<i64> = store
        .query_by_service("svc", 0, 10)
        .entries
        .iter()
        .map(|e| e.timestamp)
        .collect();
    assert_eq!(found, vec![1, 2, 3, 4, 5]);
}

#[test]
fn a_partition_keeps_the_order_of_its_batch() {
    let mut store = ChironStore::with_shards(3, 1);
    // Same timestamps, so that only the order of arrival decides what is evicted.
    let mut batch: Vec<(LogEntry, u32)> = (0..3)
        .map(|i| (make_entry(7, &format!("svc-{}", i), "h"), 0))
        .collect();
    ingest_batch_by_partition(&mut store, &mut batch);
    store.ingest_partition(0, make_entry(8, "svc-3", "h"));
    assert!(store.query_by_service("svc-0", 0, 10).entries.is_empty());
    assert_eq!(store.query_by_service("svc-1", 0, 10).entries.len(), 1);
}

#[test]
fn a_consumer_fills_flushes_and_finishes() {
    let mut store = ChironStore::with_shards(8, 2);
    let mut consume = ConsumeLoop::new(3, 1000);
    assert_eq!(consume.on_empty_poll(999), Action::PollWaiting);
    assert_eq!(
        consume.on_message(make_entry(1, "svc", "h"), 0),
        Action::PollImmediate
    );
    assert_eq!(
        consume.on_message(make_entry(2, "svc", "g"), 1),
        Action::PollImmediate
    );
    assert_eq!(
        consume.on_message(make_entry(3, "svc", "g"), 1),
        Action::Flush
    );
    assert_eq!(consume.flush(&mut store), Action::Commit);
    assert_eq!(store.shard_lens(), vec![1, 2]);
    assert_eq!(
        consume.on_message(make_entry(4, "svc", "h"), 0),
        Action::PollImmediate
    );
    // A partial batch goes out as soon as nothing more is there.
    assert_eq!(consume.on_empty_poll(5000), Action::Flush);
    assert_eq!(consume.try_flush(&mut store), Some(Action::Commit));
    assert_eq!(store.len(), 4);
    assert_eq!(consume.on_empty_poll(1000), Action::Finish);
    assert_eq!(consume.count(), 4);
}

#[test]
fn the_report_adds_up_the_consumers() {
    let mut stats = PipelineStats::new();
    let mut first = KafkaOffsets::new();
    first.record_committed("logs", &[(0, 10), (1, -1)]);
    let mut second = KafkaOffsets::new();
    second.record_committed("logs", &[(1, 7)]);
    stats.add_consumer(10, &first);
    stats.add_consumer(7, &second);
    assert_eq!(stats.total_consumed, 17);
    assert_eq!(stats.kafka_offsets.get("logs", 0), Some(10));
    assert_eq!(stats.kafka_offsets.get("logs", 1), Some(7));
}

#[test]
fn payloads_are_text_or_refused() {
    assert_eq!(payload_text(None), Err(PayloadError::MissingPayload));
    assert_eq!(
        payload_text(Some(&[0x61, 0xff])),
        Err(PayloadError::InvalidUtf8)
    );
    assert_eq!(payload_text(Some("på".as_bytes())), Ok("på"));
}

#[test]
fn every_message_reaches_the_store_once() {
    let mut store = ChironStore::with_shards(1000, 2);
    let mut consume = ConsumeLoop::new(7, 10);
    for ts in 0..50 {
        let host = format!("h{}", ts % 2);
        if consume.on_message(make_entry(ts, "svc", &host), (ts % 2) as i32) == Action::Flush {
            assert_eq!(consume.try_flush(&mut store), Some(Action::Commit));
        }
    }
    assert_eq!(store.len(), 49);
    assert_eq!(consume.on_empty_poll(10), Action::Flush);
    consume.flush(&mut store);
    assert_eq!(consume.on_empty_poll(10), Action::Finish);
    assert_eq!(consume.count(), 50);
    let found: Vec<i64> = store
        .query_by_service("svc", 0, 100)
        .entries
        .iter()
        .map(|e| e.timestamp)
        .collect();
    assert_eq!(found, (0..50).collect::<Vec<i64>>());
}

#[test]
fn a_batch_with_a_host_in_two_partitions_is_not_handed_over() {
    let mut store = ChironStore::with_shards(8, 2);
    let mut consume = ConsumeLoop::new(4, 10);
    consume.on_message(make_entry(1, "svc", "h"), 0);
    consume.on_message(make_entry(2, "svc", "h"), 1);
    assert_eq!(consume.try_flush(&mut store), None);
    assert_eq!(store.len(), 0);

    // So is one with a host that is in the shard of another partition.
    let mut consume = ConsumeLoop::new(4, 10);
    store.ingest_partition(0, make_entry(1, "svc", "h"));
    consume.on_message(make_entry(2, "svc", "g"), 1);
    consume.on_message(make_entry(3, "svc", "h"), 1);
    assert_eq!(consume.try_flush(&mut store), None);
    assert_eq!(store.len(), 1);
}

#[test]
fn a_batch_longer_than_the_capacity_stays_within_it() {
    let mut store = ChironStore::with_shards(4, 2);
    let mut batch: Vec<(LogEntry, u32)> = (0..20)
        .map(|ts| (make_entry(ts, "svc", &format!("h{}", ts % 2)), (ts % 2) as u32))
        .collect();
    ingest_batch_by_partition(&mut store, &mut batch);
    assert_eq!(store.len(), 4);
    assert_eq!(store.shard_lens(), vec![0, 4]);
    let found: Vec<i64> = store
        .query_by_service("svc", 0, 100)
        .entries
        .iter()
        .map(|e| e.timestamp)
        .collect();
    assert_eq!(found, vec![13, 15, 17, 19]);
}

#[test]
fn a_batch_size_of_zero_hands_over_every_message() {
    let mut consume = ConsumeLoop::new(0, 10);
    assert_eq!(
        consume.on_message(make_entry(1, "svc", "h"), 0),
        Action::Flush
    );
}
