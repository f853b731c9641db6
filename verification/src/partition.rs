//! One partition's share of the store: its append buffer, its indexes, and the
//! shard that bundles them.

use crate::inverted_index::{at_least, nondecreasing, InvertedIndex};
use crate::log_entry::{entry_records, shared_records, LogEntry, Record, SharedLogEntry};
use crate::offsets::{
    both, collected, has, indexes, indexes_key, intersect_sorted, intersection,
    lemma_collected_intersection, lemma_collected_postings, lemma_index_empty, lemma_index_purge,
    lemma_index_push, lemma_index_skip, lemma_offsets_where, offsets_where, postings, within,
    Dimension,
};
use crate::snapshot::{RestoredShard, ShardImage, SnapshotError};
use crate::sorting::lemma_filter_none;
use crate::store_model::{has_host, holds_host};
use std::collections::VecDeque;
use vstd::prelude::*;

verus! {

broadcast use vstd::std_specs::vecdeque::group_vec_dequeue_axioms;

/// A run of records at consecutive offsets.
#[verifier::ext_equal]
pub struct Run {
    /// The offset of the first record.
    pub oldest: nat,
    pub records: Seq<Record>,
}

impl Run {
    /// The offset that the next record will get.
    pub open spec fn next(self) -> nat {
        self.oldest + self.records.len()
    }

    pub open spec fn push(self, record: Record) -> Run {
        Run { records: self.records.push(record), ..self }
    }

    /// The run without its `count` oldest records, or empty if it has fewer.
    pub open spec fn evict(self, count: nat) -> Run {
        let gone = if count <= self.records.len() {
            count
        } else {
            self.records.len()
        };
        Run { oldest: self.oldest + gone, records: self.records.skip(gone as int) }
    }
}

/// Append buffer: live entries, oldest first, each at its own offset.
pub struct PartitionBuffer {
    entries: VecDeque<SharedLogEntry>,
    oldest_offset: u64,
    next_offset: u64,
}

impl View for PartitionBuffer {
    type V = Run;

    closed spec fn view(&self) -> Run {
        Run { oldest: self.oldest_offset as nat, records: shared_records(self.entries@) }
    }
}

impl PartitionBuffer {
    /// The offsets of the live entries end just below the next offset.
    pub closed spec fn wf(&self) -> bool {
        self.oldest_offset + self.entries@.len() == self.next_offset
    }

    pub fn new() -> (buffer: Self)
        ensures
            buffer.wf(),
            buffer@ == (Run { oldest: 0, records: Seq::empty() }),
    {
        let buffer = PartitionBuffer { entries: VecDeque::new(), oldest_offset: 0, next_offset: 0 };
        assert(buffer@.records =~= Seq::empty());
        buffer
    }

    pub fn from_snapshot(next_offset: u64, entries: Vec<LogEntry>) -> (buffer: Result<
        Self,
        SnapshotError,
    >)
        ensures
            match buffer {
                Ok(b) => {
                    &&& entries@.len() <= next_offset
                    &&& b.wf()
                    &&& b@ == (Run {
                        oldest: (next_offset - entries@.len()) as nat,
                        records: entry_records(entries@),
                    })
                },
                Err(e) => {
                    &&& next_offset < entries@.len()
                    &&& e == SnapshotError::OffsetBelowEntryCount
                },
            },
    {
        let count: usize = entries.len();
        if next_offset < count as u64 {
            return Err(SnapshotError::OffsetBelowEntryCount);
        }
        let ghost all = entry_records(entries@);
        let mut shared: VecDeque<SharedLogEntry> = VecDeque::with_capacity(count);
        for entry in it: entries
            invariant
                all == entry_records(it.seq()),
                shared_records(shared@) =~= all.take(it.index() as int),
        {
            let ghost i = it.index() as int;
            assert(entry@ == all[i]);
            let item: SharedLogEntry = SharedLogEntry::from(entry);
            assert(item@ == all[i]);
            shared.push_back(item);
            assert(shared_records(shared@) =~= all.take(i).push(item@));
        }
        let buffer = PartitionBuffer {
            entries: shared,
            oldest_offset: next_offset - count as u64,
            next_offset,
        };
        assert(shared_records(shared@) =~= all);
        Ok(buffer)
    }

    /// Appends an entry and returns its offset.
    pub fn push(&mut self, entry: SharedLogEntry) -> (offset: u64)
        requires
            old(self).wf(),
            old(self)@.next() < u64::MAX,
        ensures
            final(self).wf(),
            offset == old(self)@.next(),
            final(self)@ == old(self)@.push(entry@),
    {
        let offset: u64 = self.next_offset;
        self.entries.push_back(entry);
        self.next_offset = self.next_offset + 1;
        assert(self@.records =~= old(self)@.records.push(entry@));
        offset
    }

    pub fn get(&self, offset: u64) -> (entry: Option<&SharedLogEntry>)
        requires
            self.wf(),
        ensures
            match entry {
                Some(e) => self@.oldest <= offset < self@.next() && e@ == self@.records[offset
                    - self@.oldest],
                None => !(self@.oldest <= offset < self@.next()),
            },
    {
        if offset < self.oldest_offset || offset >= self.next_offset {
            return None;
        }
        assert(self.entries.len() == self.entries@.len());
        let idx: usize = (offset - self.oldest_offset) as usize;
        Some(&self.entries[idx])
    }

    /// Drops up to `count` of the oldest entries and returns how many went.
    pub fn evict_head(&mut self, count: usize) -> (evicted: usize)
        requires
            old(self).wf(),
        ensures
            final(self).wf(),
            evicted == if count <= old(self)@.records.len() {
                count as nat
            } else {
                old(self)@.records.len()
            },
            final(self)@ == old(self)@.evict(count as nat),
    {
        let to_evict: usize = if count <= self.entries.len() {
            count
        } else {
            self.entries.len()
        };
        let ghost all = self.entries@;
        let mut i: usize = 0;
        while i < to_evict
            invariant
                i <= to_evict <= all.len(),
                self.entries@ == all.skip(i as int),
                self.oldest_offset == old(self).oldest_offset,
                self.next_offset == old(self).next_offset,
            decreases to_evict - i,
        {
            let _ = self.entries.pop_front();
            i += 1;
            assert(self.entries@ =~= all.skip(i as int));
        }
        self.oldest_offset = self.oldest_offset + to_evict as u64;
        assert(self@.records =~= old(self)@.records.skip(to_evict as int));
        to_evict
    }

    pub fn len(&self) -> (len: usize)
        ensures
            len == self@.records.len(),
    {
        self.entries.len()
    }

    pub fn next_offset(&self) -> (offset: u64)
        requires
            self.wf(),
        ensures
            offset == self@.next(),
    {
        self.next_offset
    }

    pub fn oldest_offset(&self) -> (offset: u64)
        ensures
            offset == self@.oldest,
    {
        self.oldest_offset
    }

    /// The host of the live entry with `at` older ones.
    pub fn host_at(&self, at: usize) -> (host: &str)
        requires
            at < self@.records.len(),
        ensures
            host@ == self@.records[at as int].host,
    {
        assert(self.entries@[at as int]@ == self@.records[at as int]);
        let entry: &SharedLogEntry = &self.entries[at];
        &entry.host_id
    }

    /// Owned copies of the live entries, oldest first.
    pub fn entries_owned(&self) -> (entries: Vec<LogEntry>)
        ensures
            entry_records(entries@) == self@.records,
    {
        let mut entries: Vec<LogEntry> = Vec::with_capacity(self.entries.len());
        let mut i: usize = 0;
        while i < self.entries.len()
            invariant
                i <= self.entries@.len(),
                entry_records(entries@) =~= self@.records.take(i as int),
            decreases self.entries@.len() - i,
        {
            let shared: &SharedLogEntry = &self.entries[i];
            assert(shared@ == self@.records[i as int]);
            let entry: LogEntry = LogEntry::from(shared);
            assert(entry@ == shared@);
            entries.push(entry);
            assert(entry_records(entries@) =~= self@.records.take(i as int).push(entry@));
            i += 1;
        }
        assert(self@.records.take(i as int) =~= self@.records);
        entries
    }
}

/// An index in which every list is sorted because it indexes a run.
pub proof fn lemma_index_sorted(index: &InvertedIndex, run: Run, dimension: Dimension)
    requires
        indexes(index@, run.records, run.oldest as int, dimension),
    ensures
        index.sorted(),
{
    assert forall|key: Seq<char>| #[trigger] index@.contains_key(key) implies nondecreasing(
        index@[key],
    ) by {
        assert(indexes_key(
            postings(index@, key),
            run.records,
            run.oldest as int,
            dimension,
            key,
        ));
    }
}

/// A buffer with its two indexes and the position up to which they reach.
pub struct PartitionShardState {
    buffer: PartitionBuffer,
    indexer_pos: u64,
    service_index: InvertedIndex,
    host_index: InvertedIndex,
}

impl View for PartitionShardState {
    type V = Run;

    closed spec fn view(&self) -> Run {
        self.buffer@
    }
}

impl PartitionShardState {
    /// The number of live entries that the indexes cover: those before the
    /// indexer position.
    pub closed spec fn indexed_len(&self) -> nat {
        if self.indexer_pos <= self@.oldest {
            0
        } else {
            (self.indexer_pos - self@.oldest) as nat
        }
    }

    /// The indexes list exactly the live entries before the indexer position.
    pub closed spec fn wf(&self) -> bool {
        &&& self.buffer.wf()
        &&& self.buffer@.next() <= u64::MAX
        &&& self.service_index.wf()
        &&& self.host_index.wf()
        &&& self.indexer_pos <= self@.next()
        &&& self.indexes_first(self.indexed_len())
    }

    closed spec fn indexes_first(&self, count: nat) -> bool {
        &&& indexes(
            self.service_index@,
            self@.records.take(count as int),
            self@.oldest as int,
            Dimension::Service,
        )
        &&& indexes(
            self.host_index@,
            self@.records.take(count as int),
            self@.oldest as int,
            Dimension::Host,
        )
    }

    /// The offset of the first entry that the indexer has not visited.
    pub closed spec fn position(&self) -> nat {
        self.indexer_pos as nat
    }

    /// The indexes cover every live entry.
    pub open spec fn caught_up(&self) -> bool {
        self.position() == self@.next()
    }

    proof fn lemma_caught_up(&self)
        requires
            self.wf(),
            self.caught_up(),
        ensures
            indexes(
                self.service_index@,
                self@.records,
                self@.oldest as int,
                Dimension::Service,
            ),
            indexes(self.host_index@, self@.records, self@.oldest as int, Dimension::Host),
            self@.next() <= u64::MAX,
    {
        assert(self@.records.take(self@.records.len() as int) =~= self@.records);
    }

    pub fn new() -> (state: Self)
        ensures
            state.wf(),
            state.caught_up(),
            state@ == (Run { oldest: 0, records: Seq::empty() }),
    {
        let state = PartitionShardState {
            buffer: PartitionBuffer::new(),
            indexer_pos: 0,
            service_index: InvertedIndex::new(),
            host_index: InvertedIndex::new(),
        };
        proof {
            assert(state@.records.take(0) =~= Seq::<Record>::empty());
            lemma_index_empty(0, Dimension::Service);
            lemma_index_empty(0, Dimension::Host);
        }
        state
    }

    /// A state whose indexes have not been built yet.
    fn unindexed(buffer: PartitionBuffer) -> (state: Self)
        requires
            buffer.wf(),
            buffer@.next() <= u64::MAX,
        ensures
            state.wf(),
            state.position() == 0,
            state@ == buffer@,
    {
        let state = PartitionShardState {
            buffer,
            indexer_pos: 0,
            service_index: InvertedIndex::new(),
            host_index: InvertedIndex::new(),
        };
        proof {
            assert(state@.records.take(0) =~= Seq::<Record>::empty());
            lemma_index_empty(state@.oldest as int, Dimension::Service);
            lemma_index_empty(state@.oldest as int, Dimension::Host);
        }
        state
    }

    /// Appends an entry, indexes it at once, and returns its offset.
    pub fn ingest(&mut self, entry: SharedLogEntry) -> (offset: u64)
        requires
            old(self).wf(),
            old(self).caught_up(),
            old(self)@.next() < u64::MAX,
        ensures
            final(self).wf(),
            final(self).caught_up(),
            offset == old(self)@.next(),
            final(self)@ == old(self)@.push(entry@),
    {
        proof {
            self.lemma_caught_up();
        }
        let ghost record = entry@;
        let offset: u64 = self.buffer.push(entry);
        if let Some(e) = self.buffer.get(offset) {
            assert(e@ == record);
            self.service_index.insert(&e.service_name, offset);
            self.host_index.insert(&e.host_id, offset);
        }
        self.indexer_pos = self.buffer.next_offset();
        proof {
            lemma_index_push(
                old(self).service_index@,
                old(self)@.records,
                old(self)@.oldest as int,
                Dimension::Service,
                record,
            );
            lemma_index_push(
                old(self).host_index@,
                old(self)@.records,
                old(self)@.oldest as int,
                Dimension::Host,
                record,
            );
            assert(self@.records.take(self@.records.len() as int) =~= self@.records);
        }
        offset
    }

    /// Indexes every live entry that is not indexed yet.
    pub fn flush_indexer(&mut self)
        requires
            old(self).wf(),
        ensures
            final(self).wf(),
            final(self).caught_up(),
            final(self)@ == old(self)@,
    {
        let write_head: u64 = self.buffer.next_offset();
        let oldest: u64 = self.buffer.oldest_offset();
        if self.indexer_pos < oldest {
            self.indexer_pos = oldest;
        }
        while self.indexer_pos < write_head
            invariant
                self.buffer == old(self).buffer,
                self.buffer.wf(),
                write_head == self@.next(),
                oldest == self@.oldest,
                self.service_index.wf(),
                self.host_index.wf(),
                oldest <= self.indexer_pos <= write_head,
                self.indexes_first((self.indexer_pos - oldest) as nat),
            decreases write_head - self.indexer_pos,
        {
            let ghost before = *self;
            let ghost at = self.indexer_pos - oldest;
            let pos: u64 = self.indexer_pos;
            if let Some(entry) = self.buffer.get(pos) {
                self.service_index.insert(&entry.service_name, pos);
                self.host_index.insert(&entry.host_id, pos);
            }
            self.indexer_pos = pos + 1;
            proof {
                let done = self@.records.take(at);
                let record = self@.records[at];
                assert(self@.records.take(at + 1) =~= done.push(record));
                lemma_index_push(
                    before.service_index@,
                    done,
                    oldest as int,
                    Dimension::Service,
                    record,
                );
                lemma_index_push(before.host_index@, done, oldest as int, Dimension::Host, record);
            }
        }
    }

    /// The number of offsets that the indexer has not visited.
    pub fn indexer_lag(&self) -> (lag: u64)
        requires
            self.wf(),
        ensures
            lag == self@.next() - self.position(),
    {
        self.buffer.next_offset() - self.indexer_pos
    }

    /// The live entries of a service with a timestamp in `[t1, t2]`, oldest first.
    pub fn query_by_service(&self, service: &str, t1: i64, t2: i64) -> (found: Vec<SharedLogEntry>)
        requires
            self.wf(),
            self.caught_up(),
        ensures
            shared_records(found@) == self@.records.filter(
                within(has(Dimension::Service, service@), t1, t2),
            ),
    {
        proof {
            self.lemma_caught_up();
            lemma_collected_postings(
                self.service_index@,
                self@.records,
                self@.oldest as int,
                Dimension::Service,
                service@,
                t1,
                t2,
            );
        }
        self.collect_entries(self.service_index.get(service), t1, t2)
    }

    /// The live entries of a host with a timestamp in `[t1, t2]`, oldest first.
    pub fn query_by_host(&self, host: &str, t1: i64, t2: i64) -> (found: Vec<SharedLogEntry>)
        requires
            self.wf(),
            self.caught_up(),
        ensures
            shared_records(found@) == self@.records.filter(
                within(has(Dimension::Host, host@), t1, t2),
            ),
    {
        proof {
            self.lemma_caught_up();
            lemma_collected_postings(
                self.host_index@,
                self@.records,
                self@.oldest as int,
                Dimension::Host,
                host@,
                t1,
                t2,
            );
        }
        self.collect_entries(self.host_index.get(host), t1, t2)
    }

    /// The live entries of a service on a host with a timestamp in `[t1, t2]`,
    /// oldest first.
    pub fn query_by_service_and_host(
        &self,
        service: &str,
        host: &str,
        t1: i64,
        t2: i64,
    ) -> (found: Vec<SharedLogEntry>)
        requires
            self.wf(),
            self.caught_up(),
        ensures
            shared_records(found@) == self@.records.filter(
                within(
                    both(has(Dimension::Service, service@), has(Dimension::Host, host@)),
                    t1,
                    t2,
                ),
            ),
    {
        proof {
            self.lemma_caught_up();
            lemma_collected_intersection(
                self.service_index@,
                self.host_index@,
                self@.records,
                self@.oldest as int,
                service@,
                host@,
                t1,
                t2,
            );
        }
        let offsets: Vec<u64> = intersect_sorted(
            self.service_index.get(service),
            self.host_index.get(host),
        );
        assert(offsets@ =~= intersection(
            postings(self.service_index@, service@),
            postings(self.host_index@, host@),
        ));
        self.collect_entries(Some(offsets.as_slice()), t1, t2)
    }

    /// Whether there is a live entry of a host.
    pub fn holds_host(&self, host: &str) -> (held: bool)
        requires
            self.wf(),
            self.caught_up(),
        ensures
            held == has_host(self@.records, host@),
    {
        let ghost run = self@;
        let ghost p = has(Dimension::Host, host@);
        let ghost list = postings(self.host_index@, host@);
        let ghost live = offsets_where(run.records, run.oldest as int, p);
        proof {
            self.lemma_caught_up();
            assert(indexes_key(list, run.records, run.oldest as int, Dimension::Host, host@));
            lemma_offsets_where(run.records, run.oldest as int, p);
            if live.len() > 0 {
                assert(p(run.records[live[0] - run.oldest]));
            }
            if has_host(run.records, host@) {
                let k = choose|k: int|
                    0 <= k < run.records.len() && (#[trigger] run.records[k]).host == host@;
                assert(p(run.records[k]));
            }
            reveal(Seq::filter);
        }
        match self.host_index.get(host) {
            Some(offsets) => {
                let count: usize = offsets.len();
                if count == 0 {
                    return false;
                }
                let oldest: u64 = self.buffer.oldest_offset();
                let newest: u64 = offsets[count - 1];
                proof {
                    if newest < oldest {
                        assert forall|i: int| 0 <= i < list.len() implies !at_least(oldest)(
                            #[trigger] list[i],
                        ) by {
                            assert(i < list.len() - 1 ==> list[i] < list[list.len() - 1]);
                        }
                        lemma_filter_none(list, at_least(oldest));
                    }
                }
                newest >= oldest
            },
            None => false,
        }
    }

    /// The entries at the given offsets with a timestamp in `[t1, t2]`.
    fn collect_entries(&self, offsets: Option<&[u64]>, t1: i64, t2: i64) -> (found: Vec<
        SharedLogEntry,
    >)
        requires
            self.wf(),
        ensures
            shared_records(found@) == collected(
                self@.records,
                self@.oldest as int,
                match offsets {
                    Some(list) => list@,
                    None => Seq::empty(),
                },
                t1,
                t2,
            ),
    {
        let mut found: Vec<SharedLogEntry> = Vec::new();
        assert(shared_records(found@) =~= Seq::<Record>::empty());
        if let Some(list) = offsets {
            let mut i: usize = 0;
            while i < list.len()
                invariant
                    self.wf(),
                    i <= list@.len(),
                    shared_records(found@) == collected(
                        self@.records,
                        self@.oldest as int,
                        list@.take(i as int),
                        t1,
                        t2,
                    ),
                decreases list@.len() - i,
            {
                assert(list@.take(i + 1).drop_last() =~= list@.take(i as int));
                let ghost before = found@;
                if let Some(entry) = self.buffer.get(list[i]) {
                    if entry.timestamp >= t1 && entry.timestamp <= t2 {
                        found.push(entry.clone());
                        assert(shared_records(found@) =~= shared_records(before).push(entry@));
                    }
                }
                i += 1;
            }
            assert(list@.take(i as int) =~= list@);
        }
        found
    }

    pub fn len(&self) -> (len: usize)
        ensures
            len == self@.records.len(),
    {
        self.buffer.len()
    }

    pub fn next_offset(&self) -> (offset: u64)
        requires
            self.wf(),
        ensures
            offset == self@.next(),
    {
        self.buffer.next_offset()
    }

    /// Owned copies of the live entries, oldest first.
    pub fn entries_owned(&self) -> (entries: Vec<LogEntry>)
        ensures
            entry_records(entries@) == self@.records,
    {
        self.buffer.entries_owned()
    }

    /// Drops up to `count` of the oldest entries, from the buffer and from the
    /// indexes, and returns how many went.
    pub fn evict_head(&mut self, count: usize) -> (evicted: usize)
        requires
            old(self).wf(),
            old(self).caught_up(),
        ensures
            final(self).wf(),
            final(self).caught_up(),
            evicted == if count <= old(self)@.records.len() {
                count as nat
            } else {
                old(self)@.records.len()
            },
            final(self)@ == old(self)@.evict(count as nat),
    {
        proof {
            self.lemma_caught_up();
        }
        let evicted: usize = self.buffer.evict_head(count);
        if evicted == 0 {
            assert(self@.records =~= old(self)@.records);
            assert(self@.oldest == old(self)@.oldest);
            return 0;
        }
        let ghost run = old(self)@;
        proof {
            lemma_index_skip(
                self.service_index@,
                run.records,
                run.oldest as int,
                Dimension::Service,
                evicted as int,
            );
            lemma_index_skip(
                self.host_index@,
                run.records,
                run.oldest as int,
                Dimension::Host,
                evicted as int,
            );
            lemma_index_sorted(&self.service_index, self@, Dimension::Service);
            lemma_index_sorted(&self.host_index, self@, Dimension::Host);
            lemma_index_purge(
                self.service_index@,
                self@.records,
                self@.oldest as int,
                Dimension::Service,
            );
            lemma_index_purge(
                self.host_index@,
                self@.records,
                self@.oldest as int,
                Dimension::Host,
            );
        }
        let oldest_offset: u64 = self.buffer.oldest_offset();
        self.service_index.purge_below(oldest_offset);
        self.host_index.purge_below(oldest_offset);
        proof {
            assert(self@.records.take(self@.records.len() as int) =~= self@.records);
        }
        evicted
    }
}

/// What a shard holds.
#[verifier::ext_equal]
pub struct ShardView {
    pub id: u32,
    pub capacity: usize,
    /// The offset of the first live record.
    pub oldest: nat,
    /// The live records, oldest first.
    pub records: Seq<Record>,
}

impl ShardView {
    pub open spec fn run(self) -> Run {
        Run { oldest: self.oldest, records: self.records }
    }

    pub open spec fn with_run(self, run: Run) -> ShardView {
        ShardView { oldest: run.oldest, records: run.records, ..self }
    }

    /// The offset that the next record will get.
    pub open spec fn next(self) -> nat {
        self.oldest + self.records.len()
    }

    pub open spec fn push(self, record: Record) -> ShardView {
        self.with_run(self.run().push(record))
    }

    pub open spec fn push_all(self, records: Seq<Record>) -> ShardView {
        ShardView { records: self.records + records, ..self }
    }

    /// The shard without its `count` oldest records.
    pub open spec fn evict(self, count: nat) -> ShardView {
        self.with_run(self.run().evict(count))
    }

    /// A shard without records.
    pub open spec fn empty(id: u32, capacity: usize) -> ShardView {
        ShardView { id, capacity, oldest: 0, records: Seq::empty() }
    }

    /// What a snapshot keeps of the shard.
    pub open spec fn image(self) -> ShardImage {
        ShardImage {
            id: self.id,
            capacity: self.capacity,
            next_offset: self.next() as u64,
            records: self.records,
        }
    }

    /// The shard that a snapshot restores.
    pub open spec fn restored(image: ShardImage) -> ShardView {
        ShardView {
            id: image.id,
            capacity: image.capacity,
            oldest: (image.next_offset - image.records.len()) as nat,
            records: image.records,
        }
    }
}

/// One partition's shard. Its indexes cover all its live entries, except between
/// its restoration from a snapshot and the next flush of the indexer.
pub struct PartitionShard {
    shard_id: u32,
    capacity: usize,
    inner: PartitionShardState,
}

impl View for PartitionShard {
    type V = ShardView;

    closed spec fn view(&self) -> ShardView {
        ShardView {
            id: self.shard_id,
            capacity: self.capacity,
            oldest: self.inner@.oldest,
            records: self.inner@.records,
        }
    }
}

impl PartitionShard {
    /// The offset of the first entry that the indexer has not visited.
    pub closed spec fn position(&self) -> nat {
        self.inner.position()
    }

    /// The indexes list exactly the live entries before the indexer position.
    pub closed spec fn consistent(&self) -> bool {
        self.inner.wf()
    }

    /// The indexer has visited every entry.
    pub open spec fn caught_up(&self) -> bool {
        self.position() == self@.next()
    }

    /// The indexes list exactly the live entries.
    pub open spec fn wf(&self) -> bool {
        self.consistent() && self.caught_up()
    }

    /// A shard's offsets are `u64` values, the indexer is not ahead of the writer,
    /// and the shard's length is a `usize` value.
    pub proof fn bounds(&self)
        requires
            self.consistent(),
        ensures
            self.position() <= self@.next(),
            self@.next() <= u64::MAX,
            self@.records.len() <= usize::MAX,
    {
        assert(self.inner.buffer.entries.len() == self.inner.buffer.entries@.len());
    }

    pub fn new(shard_id: u32, capacity: usize) -> (shard: Self)
        ensures
            shard.wf(),
            shard@ == ShardView::empty(shard_id, capacity),
    {
        PartitionShard { shard_id, capacity, inner: PartitionShardState::new() }
    }

    /// The shard that a snapshot kept. Its indexes are yet to be built.
    pub fn from_restored(restored: RestoredShard) -> (shard: Result<Self, SnapshotError>)
        ensures
            match shard {
                Ok(s) => {
                    &&& restored@.records.len() <= restored@.next_offset
                    &&& s.consistent()
                    &&& s.position() == 0
                    &&& s@ == ShardView::restored(restored@)
                },
                Err(e) => {
                    &&& restored@.next_offset < restored@.records.len()
                    &&& e == SnapshotError::OffsetBelowEntryCount
                },
            },
    {
        let buffer: PartitionBuffer = match PartitionBuffer::from_snapshot(
            restored.next_offset,
            restored.entries,
        ) {
            Ok(buffer) => buffer,
            Err(e) => return Err(e),
        };
        let inner: PartitionShardState = PartitionShardState::unindexed(buffer);
        Ok(PartitionShard { shard_id: restored.shard_id, capacity: restored.capacity, inner })
    }

    /// Appends an entry and returns its offset.
    pub fn ingest(&mut self, entry: SharedLogEntry) -> (offset: u64)
        requires
            old(self).wf(),
            old(self)@.next() < u64::MAX,
        ensures
            final(self).wf(),
            offset == old(self)@.next(),
            final(self)@ == old(self)@.push(entry@),
    {
        self.inner.ingest(entry)
    }

    /// Appends entries in their order and returns their number.
    pub fn ingest_batch(&mut self, entries: Vec<SharedLogEntry>) -> (count: usize)
        requires
            old(self).wf(),
            old(self)@.next() + entries@.len() <= u64::MAX,
        ensures
            final(self).wf(),
            count == entries@.len(),
            final(self)@ == old(self)@.push_all(shared_records(entries@)),
    {
        let count: usize = entries.len();
        let ghost all = shared_records(entries@);
        assert(self@ == self@.push_all(all.take(0))) by {
            assert(self@.records + all.take(0) =~= self@.records);
        }
        for entry in it: entries
            invariant
                all == shared_records(it.seq()),
                self.wf(),
                self@ == old(self)@.push_all(all.take(it.index() as int)),
                old(self)@.next() + all.len() <= u64::MAX,
        {
            let ghost i = it.index() as int;
            assert(entry@ == all[i]);
            let _ = self.inner.ingest(entry);
            assert(self@.records =~= old(self)@.records + all.take(i + 1));
        }
        assert(all.take(all.len() as int) =~= all);
        count
    }

    /// Indexes every live entry that is not indexed yet.
    pub fn flush_indexer(&mut self)
        requires
            old(self).consistent(),
        ensures
            final(self).wf(),
            final(self)@ == old(self)@,
    {
        self.inner.flush_indexer();
    }

    /// The number of offsets that the indexer has not visited.
    pub fn indexer_lag(&self) -> (lag: u64)
        requires
            self.consistent(),
        ensures
            lag == self@.next() - self.position(),
    {
        self.inner.indexer_lag()
    }

    /// The host of the live entry with `at` older ones.
    pub fn host_at(&self, at: usize) -> (host: &str)
        requires
            at < self@.records.len(),
        ensures
            host@ == self@.records[at as int].host,
    {
        self.inner.buffer.host_at(at)
    }

    /// Whether there is a live entry of a host.
    pub fn holds_host(&self, host: &str) -> (held: bool)
        requires
            self.wf(),
        ensures
            held == holds_host(self@, host@),
    {
        self.inner.holds_host(host)
    }

    pub fn query_by_service(&self, service: &str, t1: i64, t2: i64) -> (found: Vec<SharedLogEntry>)
        requires
            self.wf(),
        ensures
            shared_records(found@) == self@.records.filter(
                within(has(Dimension::Service, service@), t1, t2),
            ),
    {
        self.inner.query_by_service(service, t1, t2)
    }

    pub fn query_by_host(&self, host: &str, t1: i64, t2: i64) -> (found: Vec<SharedLogEntry>)
        requires
            self.wf(),
        ensures
            shared_records(found@) == self@.records.filter(
                within(has(Dimension::Host, host@), t1, t2),
            ),
    {
        self.inner.query_by_host(host, t1, t2)
    }

    pub fn query_by_service_and_host(
        &self,
        service: &str,
        host: &str,
        t1: i64,
        t2: i64,
    ) -> (found: Vec<SharedLogEntry>)
        requires
            self.wf(),
        ensures
            shared_records(found@) == self@.records.filter(
                within(
                    both(has(Dimension::Service, service@), has(Dimension::Host, host@)),
                    t1,
                    t2,
                ),
            ),
    {
        self.inner.query_by_service_and_host(service, host, t1, t2)
    }

    pub fn len(&self) -> (len: usize)
        ensures
            len == self@.records.len(),
    {
        self.inner.len()
    }

    pub fn capacity(&self) -> (capacity: usize)
        ensures
            capacity == self@.capacity,
    {
        self.capacity
    }

    pub fn shard_id(&self) -> (id: u32)
        ensures
            id == self@.id,
    {
        self.shard_id
    }

    pub fn next_offset(&self) -> (offset: u64)
        requires
            self.wf(),
        ensures
            offset == self@.next(),
    {
        self.inner.next_offset()
    }

    /// Drops up to `count` of the oldest entries and returns how many went.
    pub fn evict_head(&mut self, count: usize) -> (evicted: usize)
        requires
            old(self).wf(),
        ensures
            final(self).wf(),
            evicted == if count <= old(self)@.records.len() {
                count as nat
            } else {
                old(self)@.records.len()
            },
            final(self)@ == old(self)@.evict(count as nat),
    {
        self.inner.evict_head(count)
    }

    /// Owned copies of the live entries, oldest first.
    pub fn entries_owned(&self) -> (entries: Vec<LogEntry>)
        ensures
            entry_records(entries@) == self@.records,
    {
        self.inner.entries_owned()
    }
}

} // verus!
