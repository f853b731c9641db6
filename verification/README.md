# Chiron

An in-memory, Kafka-backed log store for incident-style queries over recent
observability data. The library under `src/` is written in Verus: every executable
function carries a contract that says what it returns or changes, and Verus proves it.
Four one-line wrappers around the standard library are believed without proof; each
says above it what it claims: sharing a string, hashing a string, decoding UTF-8, and
parsing a number.

## The store

`ChironStore` is organized in partition-local shards. Each shard owns an append buffer
and two inverted indexes, by service and by host. All shards share one budget of slots.

- `ingest` routes an entry to the shard that owns its host, by the hash that producers
  use, too. `ingest_partition` and `ingest_partition_batch` write to the shard of a
  Kafka partition.
- Every write is indexed at once, so that queries see it immediately. A restored store
  has its indexes rebuilt before it is handed out.
- When no slot is free, the shard that is written to gives up its own oldest entry. If
  it has none, the fullest shard does. A batch takes a slot for each of its
  entries before the first of them is appended, so that none displaces another. More
  entries than there are slots come in pieces that fit, so that the live entries stay
  within the capacity however long a batch is.
- A host has its entries in one shard only, whichever that is. A write that would bring
  a host into a second shard is ruled out by its contract; `admits_host`, `try_ingest`
  and `ConsumeLoop::try_flush` test for it. A snapshot with such a host is refused.
- Queries by service, by host, and by both return all live entries of a time range in
  nondecreasing timestamp order. Entries with equal timestamps may come in any order.
- Snapshots keep every shard's id, capacity share, next offset and live entries, and the
  Kafka offsets to resume from. The legacy format is still read.

## Layout

| Path | What it holds |
| --- | --- |
| `src/chiron.rs` | the store |
| `src/store_model.rs`, `src/store_laws.rs`, `src/history.rs` | what its operations do, and the laws that follow, of one call and of many |
| `src/partition.rs`, `src/inverted_index.rs`, `src/offsets.rs` | one shard, its indexes, and what they say about its entries |
| `src/snapshot.rs`, `src/codec.rs`, `src/kafka_offsets.rs` | the snapshot formats |
| `src/codec_laws.rs`, `src/snapshot_laws.rs`, `src/truncation_laws.rs` | what is written is what is read back, and what was cut short is refused |
| `src/batch.rs`, `src/pipeline.rs`, `src/kafka.rs`, `src/settings.rs` | the decisions of the ingest pipeline |
| `src/routing.rs` | which partition owns a host |
| `src/ring_buffer.rs`, `src/core_shard.rs`, `src/vnode_ring.rs` | shards that own ranges of time |
| `src/monotonic_stack.rs`, `src/window_metadata.rs` | eviction by time window |
| `src/sorting.rs`, `src/totals.rs`, `src/stats.rs` | sorting, sums and percentiles |
| `tests/` | tests of the library |
| `app/` | the program: Kafka, files, threads, the environment, and floating-point scores |

## Configuration

| Variable | Meaning | Default |
| --- | --- | --- |
| `CHIRON_BROKERS` | Kafka bootstrap servers | `localhost:9092` |
| `CHIRON_TOPIC` | topic | `chiron-logs` |
| `CHIRON_PARTITIONS`, else `CHIRON_NUM_PARTITIONS` | partitions and shards | `4` |
| `CHIRON_CAPACITY`, else `CHIRON_RING_BUFFER_CAPACITY` | capacity, divisible by the shards | `100000` |
| `CHIRON_CONSUMER_GROUP` | consumer group | `chiron-pipeline` |
| `CHIRON_CONSUMER_THREADS` | consumers | one per partition |
| `CHIRON_CONSUMER_BATCH_SIZE` | messages per batch | `256` |
| `CHIRON_CONSUMER_POLL_MS` | poll timeout | `200` |
| `CHIRON_CONSUMER_IDLE_MS` | idle time after which a consumer stops | `5000` |
| `CHIRON_INDEX_FLUSH_INTERVAL_MS` | index flush interval | `50` |
