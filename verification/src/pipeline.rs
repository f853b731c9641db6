//! The ingest pipeline from Kafka to the store: its configuration, the decisions
//! of its consumers, and what it reports.

use crate::batch::{
    admissible, batch_keeps_apart, batches_are_admissible, hosts_have_one_partition, ingest_batch,
    ingest_batch_by_partition, keeps_hosts_apart,
};
use crate::chiron::ChironStore;
use crate::kafka_offsets::KafkaOffsets;
use crate::log_entry::LogEntry;
use crate::settings::{env_string, env_u32, env_u64, env_usize, setting_or};
use crate::store_laws::takes_batches;
use vstd::prelude::*;

verus! {

/// The texts of the pipeline's settings, as far as they are there.
#[derive(Debug)]
pub struct RawSettings {
    /// `CHIRON_PARTITIONS`
    pub partitions: Option<String>,
    /// `CHIRON_NUM_PARTITIONS`
    pub num_partitions: Option<String>,
    /// `CHIRON_CAPACITY`
    pub capacity: Option<String>,
    /// `CHIRON_RING_BUFFER_CAPACITY`
    pub ring_buffer_capacity: Option<String>,
    /// `CHIRON_BROKERS`
    pub brokers: Option<String>,
    /// `CHIRON_TOPIC`
    pub topic: Option<String>,
    /// `CHIRON_CONSUMER_GROUP`
    pub consumer_group: Option<String>,
    /// `CHIRON_CONSUMER_THREADS`
    pub consumer_threads: Option<String>,
    /// `CHIRON_CONSUMER_BATCH_SIZE`
    pub consumer_batch_size: Option<String>,
    /// `CHIRON_CONSUMER_POLL_MS`
    pub consumer_poll_ms: Option<String>,
    /// `CHIRON_CONSUMER_IDLE_MS`
    pub consumer_idle_ms: Option<String>,
    /// `CHIRON_INDEX_FLUSH_INTERVAL_MS`
    pub index_flush_interval_ms: Option<String>,
}

/// Configuration of the ingest pipeline. Durations are in milliseconds.
#[derive(Debug)]
pub struct PipelineConfig {
    pub brokers: String,
    pub topic: String,
    pub num_partitions: u32,
    pub capacity: usize,
    pub consumer_group: String,
    pub consumer_threads: usize,
    pub consumer_batch_size: usize,
    pub consumer_poll_timeout_ms: u64,
    pub consumer_idle_timeout_ms: u64,
    pub index_flush_interval_ms: u64,
}

/// The characters of an optional text.
pub open spec fn text(raw: Option<String>) -> Option<Seq<char>> {
    match raw {
        Some(t) => Some(t@),
        None => None,
    }
}

/// A text, or its default where it is missing.
pub open spec fn text_or(raw: Option<String>, default: Seq<char>) -> Seq<char> {
    match raw {
        Some(t) => t@,
        None => default,
    }
}

pub open spec fn at_least_one(value: nat) -> nat {
    if value == 0 {
        1
    } else {
        value
    }
}

fn as_text(raw: &Option<String>) -> (t: Option<&str>)
    ensures
        match t {
            Some(s) => text(*raw) == Some(s@),
            None => text(*raw) is None,
        },
{
    match raw {
        Some(t) => Some(t.as_str()),
        None => None,
    }
}

impl PipelineConfig {
    /// The configuration that the settings give, with defaults where they are
    /// missing or invalid.
    pub fn from_env(raw: &RawSettings) -> (config: Self)
        ensures
            config.brokers@ == text_or(raw.brokers, "localhost:9092"@),
            config.topic@ == text_or(raw.topic, "chiron-logs"@),
            config.num_partitions == setting_or(
                text(raw.partitions),
                u32::MAX as nat,
                setting_or(text(raw.num_partitions), u32::MAX as nat, 4),
            ),
            config.capacity == setting_or(
                text(raw.capacity),
                usize::MAX as nat,
                setting_or(text(raw.ring_buffer_capacity), usize::MAX as nat, 100_000),
            ),
            config.consumer_group@ == text_or(raw.consumer_group, "chiron-pipeline"@),
            config.consumer_threads == at_least_one(
                setting_or(
                    text(raw.consumer_threads),
                    usize::MAX as nat,
                    config.num_partitions as nat,
                ),
            ),
            config.consumer_batch_size == at_least_one(
                setting_or(text(raw.consumer_batch_size), usize::MAX as nat, 256),
            ),
            config.consumer_poll_timeout_ms == at_least_one(
                setting_or(text(raw.consumer_poll_ms), u64::MAX as nat, 200),
            ),
            config.consumer_idle_timeout_ms == at_least_one(
                setting_or(text(raw.consumer_idle_ms), u64::MAX as nat, 5_000),
            ),
            config.index_flush_interval_ms == setting_or(
                text(raw.index_flush_interval_ms),
                u64::MAX as nat,
                50,
            ),
    {
        let num_partitions: u32 = env_u32(
            as_text(&raw.partitions),
            env_u32(as_text(&raw.num_partitions), 4),
        );
        let capacity: usize = env_usize(
            as_text(&raw.capacity),
            env_usize(as_text(&raw.ring_buffer_capacity), 100_000),
        );
        let threads: usize = env_usize(as_text(&raw.consumer_threads), num_partitions as usize);
        let batch_size: usize = env_usize(as_text(&raw.consumer_batch_size), 256);
        let poll_ms: u64 = env_u64(as_text(&raw.consumer_poll_ms), 200);
        let idle_ms: u64 = env_u64(as_text(&raw.consumer_idle_ms), 5_000);
        PipelineConfig {
            brokers: env_string(as_text(&raw.brokers), "localhost:9092"),
            topic: env_string(as_text(&raw.topic), "chiron-logs"),
            num_partitions,
            capacity,
            consumer_group: env_string(as_text(&raw.consumer_group), "chiron-pipeline"),
            consumer_threads: if threads == 0 {
                1
            } else {
                threads
            },
            consumer_batch_size: if batch_size == 0 {
                1
            } else {
                batch_size
            },
            consumer_poll_timeout_ms: if poll_ms == 0 {
                1
            } else {
                poll_ms
            },
            consumer_idle_timeout_ms: if idle_ms == 0 {
                1
            } else {
                idle_ms
            },
            index_flush_interval_ms: env_u64(as_text(&raw.index_flush_interval_ms), 50),
        }
    }
}

/// What a consumer does next.
#[derive(Clone, Copy, Debug, PartialEq, Eq, Structural)]
pub enum Action {
    /// Wait for a message, up to the poll timeout.
    PollWaiting,
    /// Take a message if one is there, without waiting.
    PollImmediate,
    /// Hand the batch to the store.
    Flush,
    /// Commit the consumed offsets: the store has what they stand for.
    Commit,
    /// Stop: nothing has come for the idle timeout.
    Finish,
}

/// A consumer's loop: messages are gathered into a batch, and the batch is handed
/// over when it is full or no further message is there. Every message goes to the
/// shard of the partition that Kafka names.
pub struct ConsumeLoop {
    batch: Vec<(LogEntry, u32)>,
    batch_size: usize,
    idle_timeout_ms: u64,
    count: u64,
}

/// What a consumer's loop holds.
#[verifier::ext_equal]
pub struct LoopView {
    pub batch: Seq<(LogEntry, u32)>,
    pub batch_size: usize,
    pub idle_timeout_ms: u64,
    /// The number of messages consumed.
    pub count: u64,
}

impl View for ConsumeLoop {
    type V = LoopView;

    closed spec fn view(&self) -> LoopView {
        LoopView {
            batch: self.batch@,
            batch_size: self.batch_size,
            idle_timeout_ms: self.idle_timeout_ms,
            count: self.count,
        }
    }
}

impl LoopView {
    /// The loop after a message has come from a Kafka partition.
    pub open spec fn message(self, entry: LogEntry, partition: i32) -> LoopView {
        LoopView {
            batch: self.batch.push((entry, partition as u32)),
            count: (self.count + 1) as u64,
            ..self
        }
    }

    /// The loop after its batch has been handed over.
    pub open spec fn flushed(self) -> LoopView {
        LoopView { batch: Seq::empty(), ..self }
    }

    /// What is done after a message has come.
    pub open spec fn after_message(self) -> Action {
        if self.batch.len() < self.batch_size {
            Action::PollImmediate
        } else {
            Action::Flush
        }
    }

    /// What is done after a poll that brought nothing, `idle_ms` after the last
    /// message.
    pub open spec fn after_empty_poll(self, idle_ms: u64) -> Action {
        if self.batch.len() > 0 {
            Action::Flush
        } else if idle_ms >= self.idle_timeout_ms {
            Action::Finish
        } else {
            Action::PollWaiting
        }
    }
}

impl ConsumeLoop {
    /// A loop that has consumed nothing. Its first action is to poll and wait.
    pub fn new(batch_size: usize, idle_timeout_ms: u64) -> (consume: Self)
        ensures
            consume@ == (LoopView { batch: Seq::empty(), batch_size, idle_timeout_ms, count: 0 }),
    {
        let consume = ConsumeLoop { batch: Vec::new(), batch_size, idle_timeout_ms, count: 0 };
        assert(consume@.batch =~= Seq::empty());
        consume
    }

    /// A message has come, from the given Kafka partition.
    pub fn on_message(&mut self, entry: LogEntry, partition: i32) -> (action: Action)
        requires
            old(self)@.count < u64::MAX,
        ensures
            final(self)@ == old(self)@.message(entry, partition),
            final(self)@.batch == old(self)@.batch.push((entry, partition as u32)),
            final(self)@.count == old(self)@.count + 1,
            action == final(self)@.after_message(),
            final(self)@.batch.len() >= final(self)@.batch_size ==> action == Action::Flush,
            final(self)@.batch.len() < final(self)@.batch_size ==> action == Action::PollImmediate,
    {
        self.batch.push((entry, partition as u32));
        self.count = self.count + 1;
        if self.batch.len() < self.batch_size {
            Action::PollImmediate
        } else {
            Action::Flush
        }
    }

    /// A poll has brought nothing; the last message came `idle_ms` ago.
    pub fn on_empty_poll(&self, idle_ms: u64) -> (action: Action)
        ensures
            action == self@.after_empty_poll(idle_ms),
            self@.batch.len() > 0 ==> action == Action::Flush,
            self@.batch.len() == 0 && idle_ms >= self@.idle_timeout_ms ==> action
                == Action::Finish,
            self@.batch.len() == 0 && idle_ms < self@.idle_timeout_ms ==> action
                == Action::PollWaiting,
    {
        if self.batch.len() > 0 {
            Action::Flush
        } else if idle_ms >= self.idle_timeout_ms {
            Action::Finish
        } else {
            Action::PollWaiting
        }
    }

    /// Hands the batch to the store. Only then are the offsets committed.
    pub fn flush(&mut self, store: &mut ChironStore) -> (action: Action)
        requires
            old(store).wf(),
            admissible(old(store)@, old(self)@.batch),
        ensures
            final(store).wf(),
            final(store)@ == ingest_batch(old(store)@, old(self)@.batch),
            final(self)@ == old(self)@.flushed(),
            action == Action::Commit,
    {
        ingest_batch_by_partition(store, &mut self.batch);
        assert(self@.batch =~= Seq::empty());
        Action::Commit
    }

    /// Hands the batch to the store if every batch of its size can be taken and it has
    /// no host that is in the shard of another partition.
    pub fn try_flush(&mut self, store: &mut ChironStore) -> (action: Option<Action>)
        requires
            old(store).wf(),
        ensures
            final(store).wf(),
            if takes_batches(old(store)@, old(self)@.batch.len()) && keeps_hosts_apart(
                old(store)@,
                old(self)@.batch,
            ) {
                &&& final(store)@ == ingest_batch(old(store)@, old(self)@.batch)
                &&& final(self)@ == old(self)@.flushed()
                &&& action == Some(Action::Commit)
            } else {
                &&& final(store)@ == old(store)@
                &&& final(self)@ == old(self)@
                &&& action is None
            },
            action == Some(Action::Commit) <==> {
                let shards = old(store)@.shards;
                let batch = old(self)@.batch;
                &&& old(store)@.capacity > 0
                &&& shards.len() <= 0x1_0000_0000
                &&& forall|i: int| 0 <= i < shards.len() ==> (#[trigger] shards[i]).id == i
                &&& forall|i: int|
                    0 <= i < shards.len() ==> (#[trigger] shards[i]).oldest
                        + shards[i].records.len() + batch.len() <= u64::MAX
                &&& forall|k: int, i: int, l: int|
                    0 <= k < batch.len() && 0 <= i < shards.len() && 0 <= l
                        < shards[i].records.len() && (#[trigger] batch[k]).0@.host == (
                    #[trigger] shards[i].records[l]).host ==> batch[k].1 == i
                &&& forall|k: int, l: int|
                    0 <= k < batch.len() && 0 <= l < batch.len() && (#[trigger] batch[k]).0@.host
                        == (#[trigger] batch[l]).0@.host ==> batch[k].1 == batch[l].1
            },
    {
        if !store.takes_batches_of(self.batch.len()) {
            return None;
        }
        proof {
            hosts_have_one_partition(store@, self@.batch);
        }
        if !batch_keeps_apart(store, &self.batch) {
            return None;
        }
        proof {
            batches_are_admissible(store@, self@.batch);
        }
        Some(self.flush(store))
    }

    /// The number of messages consumed.
    pub fn count(&self) -> (count: u64)
        ensures
            count == self@.count,
    {
        self.count
    }
}

/// A batch never grows beyond the batch size, or beyond one message where that is
/// zero: as long as messages are taken only when the loop says so.
pub proof fn batches_are_bounded(before: LoopView, after: LoopView)
    requires
        before.batch.len() == 0 || before.after_message() == Action::PollImmediate,
        after.batch.len() == before.batch.len() + 1,
        after.batch_size == before.batch_size,
    ensures
        after.batch.len() <= after.batch_size || after.batch.len() == 1,
{
}

/// The loop ends only with an empty batch: no message is left behind.
pub proof fn nothing_is_left_behind(consume: LoopView, idle_ms: u64)
    ensures
        consume.after_empty_poll(idle_ms) == Action::Finish ==> consume.batch.len() == 0,
        consume.after_empty_poll(idle_ms) == Action::Flush ==> consume.batch.len() > 0,
{
}

/// The loop always ends: with an empty batch it stops as soon as nothing has come for the
/// idle timeout and not before, whatever it has consumed.
pub proof fn idle_loops_finish(consume: LoopView, idle_ms: u64)
    requires
        consume.batch.len() == 0,
    ensures
        idle_ms >= consume.idle_timeout_ms ==> consume.after_empty_poll(idle_ms) == Action::Finish,
        idle_ms < consume.idle_timeout_ms ==> consume.after_empty_poll(idle_ms)
            == Action::PollWaiting,
{
}

/// A batch is handed over as soon as no further message is there, however few it has and
/// however short the wait was, and as soon as it is full, but not before.
pub proof fn waiting_batches_are_flushed(consume: LoopView, idle_ms: u64)
    ensures
        consume.batch.len() > 0 ==> consume.after_empty_poll(idle_ms) == Action::Flush,
        consume.batch.len() >= consume.batch_size ==> consume.after_message() == Action::Flush,
        consume.batch.len() < consume.batch_size ==> consume.after_message()
            == Action::PollImmediate,
{
}

/// A message joins the batch as its last item, under the partition that Kafka names, and
/// is counted. Handing over empties the batch. Neither touches the rest of the loop.
pub proof fn messages_join_the_batch(consume: LoopView, entry: LogEntry, partition: i32)
    requires
        consume.count < u64::MAX,
        partition >= 0,
    ensures
        consume.message(entry, partition).batch.drop_last() == consume.batch,
        consume.message(entry, partition).batch.last().0 == entry,
        consume.message(entry, partition).batch.last().1 == partition,
        consume.message(entry, partition).count == consume.count + 1,
        consume.flushed().batch.len() == 0,
        consume.flushed().count == consume.count,
        consume.message(entry, partition).batch_size == consume.batch_size,
        consume.message(entry, partition).idle_timeout_ms == consume.idle_timeout_ms,
        consume.flushed().batch_size == consume.batch_size,
        consume.flushed().idle_timeout_ms == consume.idle_timeout_ms,
{
    assert(consume.message(entry, partition).batch.drop_last() =~= consume.batch);
}

/// A text that is there is taken as it is, and a number of at least one as well.
pub proof fn settings_are_taken_as_they_are(raw: Option<String>, default: Seq<char>, value: nat)
    ensures
        raw matches Some(t) ==> text_or(raw, default) == t@ && text(raw) == Some(t@),
        raw is None ==> text_or(raw, default) == default && text(raw) is None,
        value >= 1 ==> at_least_one(value) == value,
        value == 0 ==> at_least_one(value) == 1,
{
}

/// What happens to a loop.
pub enum LoopEvent {
    /// A message comes from a Kafka partition.
    Message(LogEntry, i32),
    /// The batch is handed over.
    Flush,
}

/// The messages among the events, in their order.
pub open spec fn messages(events: Seq<LoopEvent>) -> Seq<(LogEntry, u32)>
    decreases events.len(),
{
    if events.len() == 0 {
        Seq::empty()
    } else {
        let rest = messages(events.drop_last());
        match events.last() {
            LoopEvent::Message(entry, partition) => rest.push((entry, partition as u32)),
            LoopEvent::Flush => rest,
        }
    }
}

/// The loop after the events.
pub open spec fn loop_after(start: LoopView, events: Seq<LoopEvent>) -> LoopView
    decreases events.len(),
{
    if events.len() == 0 {
        start
    } else {
        let before = loop_after(start, events.drop_last());
        match events.last() {
            LoopEvent::Message(entry, partition) => before.message(entry, partition),
            LoopEvent::Flush => before.flushed(),
        }
    }
}

/// What the loop has handed over by then, batch after batch.
pub open spec fn handed_over(start: LoopView, events: Seq<LoopEvent>) -> Seq<(LogEntry, u32)>
    decreases events.len(),
{
    if events.len() == 0 {
        Seq::empty()
    } else {
        let rest = handed_over(start, events.drop_last());
        match events.last() {
            LoopEvent::Message(_, _) => rest,
            LoopEvent::Flush => rest + loop_after(start, events.drop_last()).batch,
        }
    }
}

/// Every message is handed over once and in order: whenever one looks, the messages
/// that have come are those that were handed over and, behind them, those of the
/// batch, and the loop has counted them all.
pub proof fn every_message_is_handed_over_once(start: LoopView, events: Seq<LoopEvent>)
    requires
        start.batch.len() == 0,
        start.count + events.len() <= u64::MAX,
    ensures
        messages(events) == handed_over(start, events) + loop_after(start, events).batch,
        loop_after(start, events).count == start.count + messages(events).len(),
        messages(events).len() <= events.len(),
    decreases events.len(),
{
    if events.len() == 0 {
        assert(start.batch =~= Seq::empty());
        assert(messages(events) =~= handed_over(start, events) + loop_after(start, events).batch);
    } else {
        let rest = events.drop_last();
        every_message_is_handed_over_once(start, rest);
        assert(messages(events) =~= handed_over(start, events) + loop_after(start, events).batch);
    }
}

/// What a pipeline run reports. Durations are in milliseconds.
#[derive(Debug)]
pub struct PipelineStats {
    pub total_consumed: u64,
    pub consume_duration_ms: u64,
    pub pipeline_duration_ms: u64,
    pub kafka_offsets: KafkaOffsets,
}

impl PipelineStats {
    /// The report of a run in which no consumer has finished yet.
    pub fn new() -> (stats: Self)
        ensures
            stats.total_consumed == 0,
            stats.consume_duration_ms == 0,
            stats.pipeline_duration_ms == 0,
            stats.kafka_offsets@ == Map::<(Seq<char>, u32), u64>::empty(),
            stats.kafka_offsets.wf(),
    {
        PipelineStats {
            total_consumed: 0,
            consume_duration_ms: 0,
            pipeline_duration_ms: 0,
            kafka_offsets: KafkaOffsets::new(),
        }
    }

    /// A consumer has finished: its messages count, and its offsets are taken over.
    pub fn add_consumer(&mut self, count: u64, offsets: &KafkaOffsets)
        requires
            old(self).total_consumed + count <= u64::MAX,
            offsets.wf(),
        ensures
            final(self).total_consumed == old(self).total_consumed + count,
            final(self).kafka_offsets@ == old(self).kafka_offsets@.union_prefer_right(offsets@),
            old(self).kafka_offsets.wf() ==> final(self).kafka_offsets.wf(),
            final(self).consume_duration_ms == old(self).consume_duration_ms,
            final(self).pipeline_duration_ms == old(self).pipeline_duration_ms,
    {
        self.total_consumed = self.total_consumed + count;
        self.kafka_offsets.merge(offsets);
    }
}

} // verus!
