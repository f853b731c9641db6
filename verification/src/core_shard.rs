//! A shard that owns a range of time: a ring buffer with its indexes, the windows
//! that queries have touched, and eviction by window.

use crate::inverted_index::{
    purged, purging_keeps_what_is_not_below, purging_twice_is_purging_once, with_offset,
    InvertedIndex,
};
use crate::log_entry::{entry_records, LogEntry, Record};
use crate::monotonic_stack::{is_eviction_order, lemma_key_in_stack, lemma_member, MonotonicStack};
use crate::offsets::{
    both, collected, has, indexes, intersect_sorted, intersection, lemma_collected_intersection,
    lemma_collected_postings, lemma_collected_where, lemma_index_empty, lemma_index_purge,
    lemma_index_push, lemma_index_skip, offsets_where, postings, within, Dimension,
};
use crate::partition::{lemma_index_sorted, Run};
use crate::ring_buffer::{numbered, RingBuffer, RingBufferIter};
use crate::sorting::is_stable_sort;
use crate::window_metadata::{
    walkable, window_end, windows_between, windows_end_at_multiples, WindowMetadataMap,
};
use vstd::prelude::*;

verus! {

/// Which dimensions a query matches.
pub enum QueryFilter<'a> {
    /// All logs in the time range.
    TimeOnly,
    /// Logs of a service.
    ByService(&'a str),
    /// Logs of a host.
    ByHost(&'a str),
    /// Logs of a service on a host.
    ByServiceAndHost(&'a str, &'a str),
}

/// Whether a record satisfies nothing in particular: all do.
pub open spec fn anything() -> spec_fn(Record) -> bool {
    |record: Record| true
}

/// The condition that a filter puts on a record.
pub open spec fn condition(filter: QueryFilter) -> spec_fn(Record) -> bool {
    match filter {
        QueryFilter::TimeOnly => anything(),
        QueryFilter::ByService(service) => has(Dimension::Service, service@),
        QueryFilter::ByHost(host) => has(Dimension::Host, host@),
        QueryFilter::ByServiceAndHost(service, host) => both(
            has(Dimension::Service, service@),
            has(Dimension::Host, host@),
        ),
    }
}

pub open spec fn later(a: i64, b: i64) -> i64 {
    if a >= b {
        a
    } else {
        b
    }
}

pub open spec fn earlier(a: i64, b: i64) -> i64 {
    if a <= b {
        a
    } else {
        b
    }
}

/// What a core shard holds.
#[verifier::ext_equal]
pub struct CoreView {
    pub id: usize,
    pub time_start: i64,
    pub time_end: i64,
    /// The live records.
    pub run: Run,
    /// The number of records that fit.
    pub room: nat,
    /// The offsets that are listed for each service.
    pub services: Map<Seq<char>, Seq<u64>>,
    /// The offsets that are listed for each host.
    pub hosts: Map<Seq<char>, Seq<u64>>,
    /// The windows that queries have touched.
    pub windows: Set<i64>,
    pub window_size: i64,
    /// The windows with their scores when eviction last ran.
    pub stack: Seq<(i64, i64)>,
    /// The number of queries since they were last counted.
    pub queries: u64,
}

impl CoreView {
    /// A shard without records.
    pub open spec fn empty(id: usize, time_start: i64, time_end: i64, room: nat) -> CoreView {
        CoreView {
            id,
            time_start,
            time_end,
            run: Run { oldest: 0, records: Seq::empty() },
            room,
            services: Map::empty(),
            hosts: Map::empty(),
            windows: Set::empty(),
            window_size: 10,
            stack: Seq::empty(),
            queries: 0,
        }
    }

    /// The shard after a record has entered it, with its offset listed for its service
    /// and its host. A full shard loses its oldest record; its offset stays listed.
    pub open spec fn ingest(self, record: Record) -> CoreView {
        CoreView {
            run: if self.run.records.len() < self.room {
                self.run.push(record)
            } else {
                self.run.push(record).evict(1)
            },
            services: with_offset(self.services, record.service, self.run.next() as u64),
            hosts: with_offset(self.hosts, record.host, self.run.next() as u64),
            ..self
        }
    }

    /// The records with a timestamp in `[t1, t2]` and in the shard's own range that
    /// satisfy a condition, oldest first.
    pub open spec fn answer(self, p: spec_fn(Record) -> bool, t1: i64, t2: i64) -> Seq<Record> {
        self.run.records.filter(
            within(p, later(t1, self.time_start), earlier(t2, (self.time_end - 1) as i64)),
        )
    }
}

/// The number of records with a timestamp in `[start, end)`.
pub open spec fn count_in_window(records: Seq<Record>, start: int, end: int) -> nat
    decreases records.len(),
{
    if records.len() == 0 {
        0
    } else {
        count_in_window(records.drop_last(), start, end) + if start
            <= records.last().timestamp < end {
            1nat
        } else {
            0
        }
    }
}

/// The live records after the windows in `keys` have been evicted in their order,
/// until no more than `target_len` records are left: for each window as many of the
/// oldest records go as there are records in the window.
pub open spec fn run_after(run: Run, keys: Seq<i64>, size: int, target_len: nat) -> Run
    decreases keys.len(),
{
    if keys.len() == 0 {
        run
    } else {
        let before = run_after(run, keys.drop_last(), size, target_len);
        if before.records.len() <= target_len {
            before
        } else {
            before.evict(
                count_in_window(
                    before.records,
                    keys.last() as int,
                    window_end(keys.last() as int, size),
                ),
            )
        }
    }
}

/// The windows among `keys` that are evicted then.
pub open spec fn evicted_windows(run: Run, keys: Seq<i64>, size: int, target_len: nat) -> Seq<i64>
    decreases keys.len(),
{
    if keys.len() == 0 {
        Seq::empty()
    } else {
        let rest = evicted_windows(run, keys.drop_last(), size, target_len);
        if run_after(run, keys.drop_last(), size, target_len).records.len() <= target_len {
            rest
        } else {
            rest.push(keys.last())
        }
    }
}

/// An index after windows have been evicted: it lists no offset below the oldest that
/// is left. If none was, it is as it was.
pub open spec fn purged_after(
    index: Map<Seq<char>, Seq<u64>>,
    evicted: Seq<i64>,
    left: Run,
) -> Map<Seq<char>, Seq<u64>> {
    if evicted.len() > 0 {
        purged(index, left.oldest as u64)
    } else {
        index
    }
}

/// The offsets that lie in the run at a record with a timestamp in `[t1, t2]`.
pub open spec fn timely(
    records: Seq<Record>,
    base: int,
    offsets: Seq<u64>,
    t1: i64,
    t2: i64,
) -> Seq<u64>
    decreases offsets.len(),
{
    if offsets.len() == 0 {
        Seq::empty()
    } else {
        let rest = timely(records, base, offsets.drop_last(), t1, t2);
        let at = offsets.last() - base;
        if 0 <= at < records.len() && t1 <= records[at].timestamp <= t2 {
            rest.push(offsets.last())
        } else {
            rest
        }
    }
}

/// The records at the offsets that lie in the run.
pub open spec fn records_at(records: Seq<Record>, base: int, offsets: Seq<u64>) -> Seq<Record>
    decreases offsets.len(),
{
    if offsets.len() == 0 {
        Seq::empty()
    } else {
        let rest = records_at(records, base, offsets.drop_last());
        let at = offsets.last() - base;
        if 0 <= at < records.len() {
            rest.push(records[at])
        } else {
            rest
        }
    }
}

/// The records at the timely offsets are those that are collected.
proof fn lemma_records_at_timely(
    records: Seq<Record>,
    base: int,
    offsets: Seq<u64>,
    t1: i64,
    t2: i64,
)
    ensures
        records_at(records, base, timely(records, base, offsets, t1, t2)) == collected(
            records,
            base,
            offsets,
            t1,
            t2,
        ),
    decreases offsets.len(),
{
    if offsets.len() > 0 {
        let rest = offsets.drop_last();
        lemma_records_at_timely(records, base, rest, t1, t2);
        let kept = timely(records, base, rest, t1, t2);
        assert(kept.push(offsets.last()).drop_last() =~= kept);
    }
}

/// A shard that owns the timestamps in `[time_start, time_end)`.
pub struct CoreShard {
    pub id: usize,
    pub time_start: i64,
    pub time_end: i64,
    /// The log data.
    pub ring_buffer: RingBuffer,
    /// Inverted index of the services.
    pub service_index: InvertedIndex,
    /// Inverted index of the hosts.
    pub host_index: InvertedIndex,
    /// The windows that queries have touched.
    pub window_meta: WindowMetadataMap,
    /// The eviction order.
    pub eviction_stack: MonotonicStack,
    pub query_count_since_last: u64,
}

impl View for CoreShard {
    type V = CoreView;

    open spec fn view(&self) -> CoreView {
        CoreView {
            id: self.id,
            time_start: self.time_start,
            time_end: self.time_end,
            run: self.ring_buffer@,
            room: self.ring_buffer.room(),
            services: self.service_index@,
            hosts: self.host_index@,
            windows: self.window_meta@,
            window_size: self.window_meta.size(),
            stack: self.eviction_stack@,
            queries: self.query_count_since_last,
        }
    }
}

impl CoreShard {
    /// The indexes list exactly the live entries, and windows have a width. The indexes
    /// may still list entries that the ring buffer has overwritten.
    pub open spec fn wf(&self) -> bool {
        &&& self.ring_buffer.wf()
        &&& self.service_index.wf()
        &&& self.host_index.wf()
        &&& indexes(
            self.service_index@,
            self@.run.records,
            self@.run.oldest as int,
            Dimension::Service,
        )
        &&& indexes(self.host_index@, self@.run.records, self@.run.oldest as int, Dimension::Host)
        &&& self@.window_size > 0
    }

    pub fn new(id: usize, time_start: i64, time_end: i64, rb_capacity: usize) -> (shard: Self)
        ensures
            shard.wf(),
            shard@ == CoreView::empty(id, time_start, time_end, rb_capacity as nat),
    {
        let shard = CoreShard {
            id,
            time_start,
            time_end,
            ring_buffer: RingBuffer::new(rb_capacity),
            service_index: InvertedIndex::new(),
            host_index: InvertedIndex::new(),
            window_meta: WindowMetadataMap::new(10),
            eviction_stack: MonotonicStack::new(),
            query_count_since_last: 0,
        };
        proof {
            lemma_index_empty(0, Dimension::Service);
            lemma_index_empty(0, Dimension::Host);
        }
        shard
    }

    /// Whether the shard owns a timestamp.
    pub fn owns(&self, timestamp: i64) -> (owned: bool)
        ensures
            owned == (self@.time_start <= timestamp < self@.time_end),
    {
        timestamp >= self.time_start && timestamp < self.time_end
    }

    /// Whether the shard's range meets `[t1, t2]`.
    pub fn overlaps(&self, t1: i64, t2: i64) -> (met: bool)
        ensures
            met == (t1 < self@.time_end && self@.time_start <= t2),
    {
        t1 < self.time_end && t2 >= self.time_start
    }

    /// Appends an entry and returns its offset.
    pub fn ingest(&mut self, entry: LogEntry) -> (offset: u64)
        requires
            old(self).wf(),
            old(self)@.room > 0,
            old(self)@.run.next() < u64::MAX,
        ensures
            final(self).wf(),
            offset == old(self)@.run.next(),
            final(self)@ == old(self)@.ingest(entry@),
    {
        let ghost record = entry@;
        let offset: u64 = self.ring_buffer.push(entry.clone());
        self.service_index.insert(entry.service_name.as_str(), offset);
        self.host_index.insert(entry.host_id.as_str(), offset);
        proof {
            let run = old(self)@.run;
            let base = run.oldest as int;
            lemma_index_push(
                old(self).service_index@,
                run.records,
                base,
                Dimension::Service,
                record,
            );
            lemma_index_push(old(self).host_index@, run.records, base, Dimension::Host, record);
            if run.records.len() >= old(self)@.room {
                let longer = run.records.push(record);
                lemma_index_skip(self.service_index@, longer, base, Dimension::Service, 1);
                lemma_index_skip(self.host_index@, longer, base, Dimension::Host, 1);
            }
        }
        offset
    }

    /// The offsets of all live entries.
    fn live_offsets(&self) -> (offsets: Vec<u64>)
        requires
            self.wf(),
        ensures
            offsets@ == offsets_where(self@.run.records, self@.run.oldest as int, anything()),
    {
        let mut iter: RingBufferIter = self.ring_buffer.iter();
        let mut offsets: Vec<u64> = Vec::new();
        let ghost run = self@.run;
        let ghost all = iter.remaining();
        let ghost mut done: int = 0;
        proof {
            self.ring_buffer.bounds();
            assert(all.skip(0) =~= all);
            assert(run.records.take(0) =~= Seq::empty());
        }
        loop
            invariant_except_break
                iter.wf(),
                0 <= done <= run.records.len(),
                iter.remaining() == all.skip(done),
                offsets@ == offsets_where(run.records.take(done), run.oldest as int, anything()),
            invariant
                run.next() <= u64::MAX,
                all == Seq::new(run.records.len(), |i: int| numbered(run, i)),
            ensures
                offsets@ == offsets_where(run.records, run.oldest as int, anything()),
            decreases iter.remaining().len(),
        {
            match iter.next() {
                Some((offset, _)) => {
                    offsets.push(offset);
                },
                None => {
                    assert(run.records.take(done) =~= run.records);
                    break;
                },
            }
            proof {
                assert(all.skip(done).first() == all[done]);
                assert(all.skip(done).drop_first() =~= all.skip(done + 1));
                assert(run.records.take(done + 1).drop_last() =~= run.records.take(done));
                done = done + 1;
            }
        }
        offsets
    }

    /// Logs that match the filter and have a timestamp in `[t1, t2]`, within the
    /// shard's own range. The windows that the query touches are recorded.
    pub fn query(&mut self, t1: i64, t2: i64, filter: &QueryFilter) -> (found: Vec<LogEntry>)
        requires
            old(self).wf(),
            old(self)@.time_end > i64::MIN,
            old(self)@.queries < u64::MAX,
            walkable(t1 as int, t2 as int, old(self)@.window_size as int),
        ensures
            final(self).wf(),
            entry_records(found@) == old(self)@.answer(condition(*filter), t1, t2),
            final(self)@ == (CoreView {
                windows: old(self)@.windows.union(
                    windows_between(
                        t1 as int,
                        t2 as int,
                        old(self)@.window_size as int,
                    ).to_set(),
                ),
                queries: (old(self)@.queries + 1) as u64,
                ..old(self)@
            }),
    {
        let _ = self.window_meta.record_query(t1, t2);
        self.query_count_since_last = self.query_count_since_last + 1;
        let t1: i64 = if t1 >= self.time_start {
            t1
        } else {
            self.time_start
        };
        let last: i64 = self.time_end - 1;
        let t2: i64 = if t2 <= last {
            t2
        } else {
            last
        };
        let ghost records = self@.run.records;
        let ghost base = self@.run.oldest as int;
        proof {
            self.ring_buffer.bounds();
        }
        let offsets: Vec<u64> = match filter {
            QueryFilter::TimeOnly => {
                let all: Vec<u64> = self.live_offsets();
                proof {
                    lemma_collected_where(records, base, anything(), t1, t2);
                    lemma_records_at_timely(records, base, all@, t1, t2);
                }
                self.filter_offsets_by_time(Some(all.as_slice()), t1, t2)
            },
            QueryFilter::ByService(service) => {
                proof {
                    lemma_collected_postings(
                        self.service_index@,
                        records,
                        base,
                        Dimension::Service,
                        service@,
                        t1,
                        t2,
                    );
                    let list = postings(self.service_index@, service@);
                    lemma_records_at_timely(records, base, list, t1, t2);
                }
                self.filter_offsets_by_time(self.service_index.get(service), t1, t2)
            },
            QueryFilter::ByHost(host) => {
                proof {
                    lemma_collected_postings(
                        self.host_index@,
                        records,
                        base,
                        Dimension::Host,
                        host@,
                        t1,
                        t2,
                    );
                    let list = postings(self.host_index@, host@);
                    lemma_records_at_timely(records, base, list, t1, t2);
                }
                self.filter_offsets_by_time(self.host_index.get(host), t1, t2)
            },
            QueryFilter::ByServiceAndHost(service, host) => {
                let intersected: Vec<u64> = intersect_sorted(
                    self.service_index.get(service),
                    self.host_index.get(host),
                );
                proof {
                    assert(intersected@ =~= intersection(
                        postings(self.service_index@, service@),
                        postings(self.host_index@, host@),
                    ));
                    lemma_collected_intersection(
                        self.service_index@,
                        self.host_index@,
                        records,
                        base,
                        service@,
                        host@,
                        t1,
                        t2,
                    );
                    lemma_records_at_timely(records, base, intersected@, t1, t2);
                }
                self.filter_offsets_by_time(Some(intersected.as_slice()), t1, t2)
            },
        };
        self.entries_at(offsets.as_slice())
    }

    /// Copies of the entries at the given offsets.
    fn entries_at(&self, offsets: &[u64]) -> (entries: Vec<LogEntry>)
        requires
            self.wf(),
        ensures
            entry_records(entries@) == records_at(
                self@.run.records,
                self@.run.oldest as int,
                offsets@,
            ),
    {
        let mut entries: Vec<LogEntry> = Vec::new();
        let mut i: usize = 0;
        assert(entry_records(entries@) =~= Seq::empty());
        while i < offsets.len()
            invariant
                self.wf(),
                i <= offsets@.len(),
                entry_records(entries@) == records_at(
                    self@.run.records,
                    self@.run.oldest as int,
                    offsets@.take(i as int),
                ),
            decreases offsets@.len() - i,
        {
            assert(offsets@.take(i + 1).drop_last() =~= offsets@.take(i as int));
            let ghost before = entries@;
            if let Some(entry) = self.ring_buffer.get(offsets[i]) {
                entries.push(entry.clone());
                assert(entry_records(entries@) =~= entry_records(before).push(entry@));
            }
            i += 1;
        }
        assert(offsets@.take(i as int) =~= offsets@);
        entries
    }

    /// Those of the given offsets at which there is an entry with a timestamp in
    /// `[t1, t2]`.
    fn filter_offsets_by_time(&self, offsets: Option<&[u64]>, t1: i64, t2: i64) -> (kept: Vec<u64>)
        requires
            self.wf(),
        ensures
            kept@ == timely(
                self@.run.records,
                self@.run.oldest as int,
                match offsets {
                    Some(list) => list@,
                    None => Seq::empty(),
                },
                t1,
                t2,
            ),
    {
        let mut kept: Vec<u64> = Vec::new();
        if let Some(list) = offsets {
            let mut i: usize = 0;
            while i < list.len()
                invariant
                    self.wf(),
                    i <= list@.len(),
                    kept@ == timely(
                        self@.run.records,
                        self@.run.oldest as int,
                        list@.take(i as int),
                        t1,
                        t2,
                    ),
                decreases list@.len() - i,
            {
                assert(list@.take(i + 1).drop_last() =~= list@.take(i as int));
                if let Some(entry) = self.ring_buffer.get(list[i]) {
                    if entry.timestamp >= t1 && entry.timestamp <= t2 {
                        kept.push(list[i]);
                    }
                }
                i += 1;
            }
            assert(list@.take(i as int) =~= list@);
        }
        kept
    }

    /// The number of live entries with a timestamp in `[start, end)`.
    fn count_window(&self, start: i64, end: i64) -> (count: usize)
        requires
            self.wf(),
        ensures
            count == count_in_window(self@.run.records, start as int, end as int),
            count == self@.run.records.filter(
                |record: Record| start <= record.timestamp < end,
            ).len(),
    {
        let mut iter: RingBufferIter = self.ring_buffer.iter();
        let mut count: usize = 0;
        let ghost run = self@.run;
        let ghost all = iter.remaining();
        let ghost mut done: int = 0;
        proof {
            self.ring_buffer.bounds();
            assert(all.skip(0) =~= all);
            assert(run.records.take(0) =~= Seq::empty());
        }
        loop
            invariant_except_break
                iter.wf(),
                0 <= done <= run.records.len(),
                iter.remaining() == all.skip(done),
                count == count_in_window(run.records.take(done), start as int, end as int),
                count <= done,
            invariant
                run.records.len() <= usize::MAX,
                all == Seq::new(run.records.len(), |i: int| numbered(run, i)),
            ensures
                count == count_in_window(run.records, start as int, end as int),
            decreases iter.remaining().len(),
        {
            proof {
                if done < run.records.len() {
                    assert(all.skip(done).first() == all[done]);
                    assert(all.skip(done).drop_first() =~= all.skip(done + 1));
                    assert(run.records.take(done + 1).drop_last() =~= run.records.take(done));
                }
            }
            match iter.next() {
                Some((_, entry)) => {
                    if entry.timestamp >= start && entry.timestamp < end {
                        count += 1;
                    }
                },
                None => {
                    assert(run.records.take(done) =~= run.records);
                    break;
                },
            }
            proof {
                done = done + 1;
            }
        }
        proof {
            counted_records_lie_in_the_window(self@.run.records, start as int, end as int);
            let p = |record: Record| start <= record.timestamp < end;
            assert((|record: Record| (start as int) <= record.timestamp < (end as int)) =~= p);
        }
        count
    }

    /// Evicts as many of the oldest entries as there are in one window, and forgets
    /// the window.
    fn evict_window(&mut self, window_key: i64)
        requires
            old(self).wf(),
            window_key + old(self)@.window_size <= i64::MAX,
            window_key + old(self)@.window_size >= i64::MIN,
        ensures
            final(self).wf(),
            final(self)@ == (CoreView {
                run: old(self)@.run.evict(
                    count_in_window(
                        old(self)@.run.records,
                        window_key as int,
                        window_end(window_key as int, old(self)@.window_size as int),
                    ),
                ),
                services: purged(old(self)@.services, final(self)@.run.oldest as u64),
                hosts: purged(old(self)@.hosts, final(self)@.run.oldest as u64),
                windows: old(self)@.windows.remove(window_key),
                ..old(self)@
            }),
    {
        let end: i64 = self.window_meta.window_end(window_key);
        let count: usize = self.count_window(window_key, end);
        let ghost run = self@.run;
        let ghost base = run.oldest as int;
        proof {
            self.ring_buffer.bounds();
        }
        let evicted: usize = self.ring_buffer.evict_head(count);
        let oldest: u64 = self.ring_buffer.oldest_offset();
        proof {
            let gone = evicted as int;
            lemma_index_skip(self.service_index@, run.records, base, Dimension::Service, gone);
            lemma_index_skip(self.host_index@, run.records, base, Dimension::Host, gone);
            lemma_index_sorted(&self.service_index, self@.run, Dimension::Service);
            lemma_index_sorted(&self.host_index, self@.run, Dimension::Host);
            lemma_index_purge(
                self.service_index@,
                self@.run.records,
                self@.run.oldest as int,
                Dimension::Service,
            );
            lemma_index_purge(
                self.host_index@,
                self@.run.records,
                self@.run.oldest as int,
                Dimension::Host,
            );
        }
        self.service_index.purge_below(oldest);
        self.host_index.purge_below(oldest);
        self.window_meta.remove_window(window_key);
    }

    /// Evicts the lowest-scored windows until no more than `target_len` entries are
    /// left, and returns the windows that were evicted. `windows` holds the keys of
    /// the known windows with their scores. With no more than `target_len` entries
    /// to begin with, nothing happens. Where a window went, the indexes list no offset
    /// below the oldest that is left.
    pub fn run_eviction(&mut self, target_len: usize, windows: Vec<(i64, i64)>) -> (evicted: Vec<
        i64,
    >)
        requires
            old(self).wf(),
            forall|i: int|
                0 <= i < windows@.len() ==> i64::MIN <= (#[trigger] windows@[i]).0
                    + old(self)@.window_size <= i64::MAX,
        ensures
            final(self).wf(),
            old(self)@.run.records.len() <= target_len ==> evicted@.len() == 0 && final(self)@
                == old(self)@,
            old(self)@.run.records.len() > target_len ==> {
                &&& is_stable_sort(windows@, final(self)@.stack)
                &&& exists|keys: Seq<i64>|
                    #![trigger is_eviction_order(final(self)@.stack, keys)]
                    {
                        &&& is_eviction_order(final(self)@.stack, keys)
                        &&& evicted@ == evicted_windows(
                            old(self)@.run,
                            keys,
                            old(self)@.window_size as int,
                            target_len as nat,
                        )
                        &&& final(self)@ == (CoreView {
                            run: run_after(
                                old(self)@.run,
                                keys,
                                old(self)@.window_size as int,
                                target_len as nat,
                            ),
                            services: purged_after(
                                old(self)@.services,
                                evicted@,
                                final(self)@.run,
                            ),
                            hosts: purged_after(old(self)@.hosts, evicted@, final(self)@.run),
                            windows: old(self)@.windows.difference(evicted@.to_set()),
                            stack: final(self)@.stack,
                            ..old(self)@
                        })
                    }
            },
    {
        let mut evicted: Vec<i64> = Vec::new();
        if self.ring_buffer.len() <= target_len {
            return evicted;
        }
        let ghost given = windows@;
        self.eviction_stack.rebuild(windows);
        let evictable: Vec<i64> = self.eviction_stack.evictable();
        let ghost stack = self@.stack;
        let ghost keys = evictable@;
        let ghost before = *old(self);
        let ghost size = before@.window_size as int;
        proof {
            lemma_keys_from_windows(given, stack, keys);
            assert forall|k: int| 0 <= k < keys.len() implies i64::MIN <= #[trigger] keys[k] + size
                <= i64::MAX by {
                assert(is_given(given, keys[k]));
            }
            assert(keys.take(0) =~= Seq::empty());
            assert(evicted@.to_set() =~= Set::empty());
            assert(before@.windows.difference(evicted@.to_set()) =~= before@.windows);
        }
        let mut i: usize = 0;
        while i < evictable.len()
            invariant
                self.wf(),
                i <= keys.len(),
                keys == evictable@,
                size == before@.window_size,
                size == self@.window_size,
                forall|k: int|
                    0 <= k < keys.len() ==> i64::MIN <= #[trigger] keys[k] + size <= i64::MAX,
                evicted@ == evicted_windows(
                    before@.run,
                    keys.take(i as int),
                    size,
                    target_len as nat,
                ),
                self@ == (CoreView {
                    run: run_after(before@.run, keys.take(i as int), size, target_len as nat),
                    services: purged_after(before@.services, evicted@, self@.run),
                    hosts: purged_after(before@.hosts, evicted@, self@.run),
                    windows: before@.windows.difference(evicted@.to_set()),
                    stack,
                    ..before@
                }),
            decreases keys.len() - i,
        {
            assert(keys.take(i + 1).drop_last() =~= keys.take(i as int));
            if self.ring_buffer.len() > target_len {
                let ghost gone = evicted@;
                let ghost oldest = self@.run.oldest;
                proof {
                    self.ring_buffer.bounds();
                }
                let key: i64 = evictable[i];
                assert(keys[i as int] == key);
                self.evict_window(key);
                evicted.push(key);
                proof {
                    gone.lemma_push_to_set_commute(key);
                    self.ring_buffer.bounds();
                    let low = oldest as u64;
                    let high = self@.run.oldest as u64;
                    purging_twice_is_purging_once(before@.services, low, high);
                    purging_twice_is_purging_once(before@.hosts, low, high);
                    assert(before@.windows.difference(gone.to_set()).remove(key)
                        =~= before@.windows.difference(evicted@.to_set()));
                }
            }
            i += 1;
        }
        proof {
            assert(keys.take(i as int) =~= keys);
            assert(is_eviction_order(self@.stack, keys));
        }
        evicted
    }

    /// The windows that queries have touched, each once, in any order. Their scores
    /// decide which of them `run_eviction` evicts.
    pub fn known_windows(&self) -> (keys: Vec<i64>)
        ensures
            keys@.to_set() == self@.windows,
            keys@.no_duplicates(),
    {
        self.window_meta.keys()
    }

    /// The number of queries since this was last asked; it starts over.
    pub fn take_query_count(&mut self) -> (count: u64)
        requires
            old(self).wf(),
        ensures
            final(self).wf(),
            count == old(self)@.queries,
            final(self)@ == (CoreView { queries: 0, ..old(self)@ }),
    {
        let count: u64 = self.query_count_since_last;
        self.query_count_since_last = 0;
        count
    }
}

/// A window is among those that were given.
spec fn is_given(given: Seq<(i64, i64)>, key: i64) -> bool {
    exists|i: int| 0 <= i < given.len() && (#[trigger] given[i]).0 == key
}

/// The windows in an eviction order are among those that were given.
proof fn lemma_keys_from_windows(given: Seq<(i64, i64)>, stack: Seq<(i64, i64)>, keys: Seq<i64>)
    requires
        is_stable_sort(given, stack),
        is_eviction_order(stack, keys),
    ensures
        forall|k: int| 0 <= k < keys.len() ==> is_given(given, #[trigger] keys[k]),
{
    assert forall|k: int| 0 <= k < keys.len() implies is_given(given, #[trigger] keys[k]) by {
        lemma_key_in_stack(stack, keys, k);
        let j = choose|j: int| 0 <= j < stack.len() && (#[trigger] stack[j]).0 == keys[k];
        lemma_member(given, stack, j);
        let i = choose|i: int| 0 <= i < given.len() && given[i] == stack[j];
        assert(given[i].0 == keys[k]);
    }
}

/// A run after it has lost some of its oldest records.
pub open spec fn shortened(before: Run, after: Run) -> bool {
    exists|count: nat| after == #[trigger] before.evict(count)
}

/// Eviction by window takes the oldest records only: what is left are the newest,
/// at their offsets and in their order. It stops as soon as the target is reached,
/// so that it never takes a record from a shard that is at its target.
pub proof fn eviction_keeps_the_newest(run: Run, keys: Seq<i64>, size: int, target_len: nat)
    ensures
        shortened(run, run_after(run, keys, size, target_len)),
        run.records.len() <= target_len ==> run_after(run, keys, size, target_len) == run,
    decreases keys.len(),
{
    if keys.len() == 0 {
        assert(run.evict(0) =~= run);
    } else {
        let rest = keys.drop_last();
        eviction_keeps_the_newest(run, rest, size, target_len);
        let before = run_after(run, rest, size, target_len);
        if before.records.len() > target_len {
            let first = choose|count: nat| before == #[trigger] run.evict(count);
            let second = count_in_window(
                before.records,
                keys.last() as int,
                window_end(keys.last() as int, size),
            );
            assert(run.evict(first).evict(second) =~= run.evict(first + second));
        }
    }
}

/// A record that a shard owns and has just ingested is found by every query that
/// it matches.
pub proof fn ingested_record_is_found(
    shard: CoreView,
    record: Record,
    p: spec_fn(Record) -> bool,
    t1: i64,
    t2: i64,
)
    requires
        shard.room > 0,
        shard.time_start <= record.timestamp < shard.time_end,
        t1 <= record.timestamp <= t2,
        p(record),
    ensures
        shard.ingest(record).answer(p, t1, t2).contains(record),
{
    broadcast use vstd::seq_lib::group_filter_ensures;

    let records = shard.ingest(record).run.records;
    let last = records.len() - 1;
    assert(records[last] == record);
    let q = within(
        p,
        later(t1, shard.time_start),
        earlier(t2, (shard.time_end - 1) as i64),
    );
    assert(q(records[last]));
    assert(records.filter(q).contains(records[last]));
}

/// A shard never holds more records than fit.
pub proof fn shard_never_overflows(shard: CoreView, record: Record)
    requires
        shard.room > 0,
        shard.run.records.len() <= shard.room,
    ensures
        shard.ingest(record).run.records.len() <= shard.room,
        shard.ingest(record).run.next() == shard.run.next() + 1,
{
}

/// The number that is counted for a window is the number of records with a timestamp in
/// it, each counted on its own, whatever timestamps the others have.
pub proof fn counted_records_lie_in_the_window(records: Seq<Record>, start: int, end: int)
    ensures
        count_in_window(records, start, end) == records.filter(
            |record: Record| start <= record.timestamp < end,
        ).len(),
    decreases records.len(),
{
    reveal(Seq::filter);
    if records.len() > 0 {
        counted_records_lie_in_the_window(records.drop_last(), start, end);
    }
}

proof fn lemma_count_split(records: Seq<Record>, start: int, end: int, count: int)
    requires
        0 <= count <= records.len(),
        forall|i: int|
            0 <= i < count ==> start <= (#[trigger] records[i]).timestamp < end,
        forall|i: int|
            count <= i < records.len() ==> !(start <= (#[trigger] records[i]).timestamp < end),
    ensures
        count_in_window(records, start, end) == count,
    decreases records.len(),
{
    if records.len() > 0 {
        let rest = records.drop_last();
        let last = records.len() - 1;
        let fewer = if count <= last {
            count
        } else {
            last
        };
        assert forall|i: int| 0 <= i < fewer implies start <= (#[trigger] rest[i]).timestamp
            < end by {
            assert(start <= records[i].timestamp < end);
        }
        assert forall|i: int| fewer <= i < rest.len() implies !(start <= (
        #[trigger] rest[i]).timestamp < end) by {
            assert(!(start <= records[i].timestamp < end));
        }
        lemma_count_split(rest, start, end, fewer);
        assert(records[last] == records.last());
    }
}

/// Evicting a window whose records are the oldest takes every one of them and no other,
/// as long as there are more records than the target.
pub proof fn window_of_the_oldest_goes_whole(
    run: Run,
    key: i64,
    size: int,
    end: int,
    target_len: nat,
    count: nat,
)
    requires
        size > 0,
        key > i64::MIN ==> end == key + size,
        key == i64::MIN ==> key < end <= key + size && end % size == 0,
        count <= run.records.len(),
        run.records.len() > target_len,
        forall|i: int|
            0 <= i < count ==> key <= (#[trigger] run.records[i]).timestamp < end,
        forall|i: int|
            count <= i < run.records.len() ==> !(key <= (#[trigger] run.records[i]).timestamp
                < end),
    ensures
        run_after(run, seq![key], size, target_len) == (Run {
            oldest: run.oldest + count,
            records: run.records.skip(count as int),
        }),
        evicted_windows(run, seq![key], size, target_len) == seq![key],
{
    windows_end_at_multiples(key, size, end);
    lemma_count_split(run.records, key as int, end, count as int);
    assert(seq![key].drop_last() =~= Seq::<i64>::empty());
    assert(run_after(run, Seq::empty(), size, target_len) == run);
    assert(evicted_windows(run, Seq::empty(), size, target_len) == Seq::<i64>::empty());
    assert(evicted_windows(run, seq![key], size, target_len) =~= seq![key]);
}

/// Windows go in their order: one more window takes as many of the oldest records that are
/// left by then as have their timestamps in it, if there are still more than the target,
/// and otherwise nothing.
pub proof fn windows_go_in_order(
    run: Run,
    keys: Seq<i64>,
    key: i64,
    size: int,
    end: int,
    target_len: nat,
)
    requires
        size > 0,
        key > i64::MIN ==> end == key + size,
        key == i64::MIN ==> key < end <= key + size && end % size == 0,
    ensures
        run_after(run, Seq::empty(), size, target_len) == run,
        evicted_windows(run, Seq::empty(), size, target_len).len() == 0,
        ({
            let left = run_after(run, keys, size, target_len);
            let gone = evicted_windows(run, keys, size, target_len);
            let after = run_after(run, keys.push(key), size, target_len);
            let evicted = evicted_windows(run, keys.push(key), size, target_len);
            if left.records.len() > target_len {
                let count = left.records.filter(
                    |record: Record| key <= record.timestamp < end,
                ).len();
                &&& count <= left.records.len()
                &&& after == (Run {
                    oldest: left.oldest + count,
                    records: left.records.skip(count as int),
                })
                &&& evicted == gone.push(key)
            } else {
                after == left && evicted == gone
            }
        }),
{
    broadcast use vstd::seq_lib::group_filter_ensures;

    let left = run_after(run, keys, size, target_len);
    assert(keys.push(key).drop_last() =~= keys);
    windows_end_at_multiples(key, size, end);
    counted_records_lie_in_the_window(left.records, key as int, end);
    let p = |record: Record| key <= record.timestamp < end;
    assert((|record: Record| (key as int) <= record.timestamp < end) =~= p);
    assert(left.records.filter(p).len() <= left.records.len());
}

/// Eviction goes as far as it must and no further: the windows that go are the first of
/// the order. Before the last of them went there were more records than the target, and
/// afterwards there are not, unless all windows have gone.
pub proof fn eviction_stops_at_the_target(run: Run, keys: Seq<i64>, size: int, target_len: nat)
    ensures
        ({
            let gone = evicted_windows(run, keys, size, target_len);
            &&& gone.len() <= keys.len()
            &&& gone == keys.take(gone.len() as int)
            &&& run_after(run, keys, size, target_len) == run_after(run, gone, size, target_len)
            &&& gone.len() > 0 ==> run_after(
                run,
                keys.take(gone.len() - 1),
                size,
                target_len,
            ).records.len() > target_len
            &&& gone.len() < keys.len() ==> run_after(
                run,
                keys,
                size,
                target_len,
            ).records.len() <= target_len
        }),
    decreases keys.len(),
{
    let gone = evicted_windows(run, keys, size, target_len);
    if keys.len() == 0 {
        assert(gone =~= keys.take(0));
        assert(keys =~= Seq::empty());
    } else {
        let rest = keys.drop_last();
        eviction_stops_at_the_target(run, rest, size, target_len);
        let before = evicted_windows(run, rest, size, target_len);
        let left = run_after(run, rest, size, target_len);
        if left.records.len() <= target_len {
            assert(gone == before);
            assert(keys.take(gone.len() as int) =~= rest.take(gone.len() as int));
            if gone.len() > 0 {
                assert(keys.take(gone.len() - 1) =~= rest.take(gone.len() - 1));
            }
        } else {
            assert(before.len() == rest.len());
            assert(rest.take(rest.len() as int) =~= rest);
            assert(gone =~= keys);
            assert(keys.take(keys.len() as int) =~= keys);
            assert(keys.take(keys.len() - 1) =~= rest);
        }
    }
}

/// A shard is asked for what it holds, no more and no less: the records that the filter
/// names, with a timestamp that both the query and the shard's own range have, in their
/// order.
pub proof fn shard_queries_find_what_matches(
    shard: CoreView,
    service: &str,
    host: &str,
    t1: i64,
    t2: i64,
)
    requires
        shard.time_end > i64::MIN,
    ensures
        shard.answer(condition(QueryFilter::TimeOnly), t1, t2) == shard.run.records.filter(
            |r: Record|
                t1 <= r.timestamp <= t2 && shard.time_start <= r.timestamp < shard.time_end,
        ),
        shard.answer(condition(QueryFilter::ByService(service)), t1, t2)
            == shard.run.records.filter(
            |r: Record|
                r.service == service@ && t1 <= r.timestamp <= t2 && shard.time_start <= r.timestamp
                    < shard.time_end,
        ),
        shard.answer(condition(QueryFilter::ByHost(host)), t1, t2) == shard.run.records.filter(
            |r: Record|
                r.host == host@ && t1 <= r.timestamp <= t2 && shard.time_start <= r.timestamp
                    < shard.time_end,
        ),
        shard.answer(condition(QueryFilter::ByServiceAndHost(service, host)), t1, t2)
            == shard.run.records.filter(
            |r: Record|
                r.service == service@ && r.host == host@ && t1 <= r.timestamp <= t2
                    && shard.time_start <= r.timestamp < shard.time_end,
        ),
{
    let from = later(t1, shard.time_start);
    let to = earlier(t2, (shard.time_end - 1) as i64);
    let timely = |r: Record|
        t1 <= r.timestamp <= t2 && shard.time_start <= r.timestamp < shard.time_end;
    let by_service = |r: Record|
        r.service == service@ && t1 <= r.timestamp <= t2 && shard.time_start <= r.timestamp
            < shard.time_end;
    let by_host = |r: Record|
        r.host == host@ && t1 <= r.timestamp <= t2 && shard.time_start <= r.timestamp
            < shard.time_end;
    let by_both = |r: Record|
        r.service == service@ && r.host == host@ && t1 <= r.timestamp <= t2 && shard.time_start
            <= r.timestamp < shard.time_end;
    assert(within(condition(QueryFilter::TimeOnly), from, to) =~= timely);
    assert(within(condition(QueryFilter::ByService(service)), from, to) =~= by_service);
    assert(within(condition(QueryFilter::ByHost(host)), from, to) =~= by_host);
    assert(within(condition(QueryFilter::ByServiceAndHost(service, host)), from, to)
        =~= by_both);
}

/// A record enters a shard as its newest, at the next offset, and is listed there for its
/// service and its host. Only a full shard loses a record for it, its oldest. Nothing
/// else changes.
pub proof fn shard_takes_a_record(shard: CoreView, record: Record)
    requires
        shard.room > 0,
    ensures
        shard.run.records.len() < shard.room ==> shard.ingest(record).run == (Run {
            oldest: shard.run.oldest,
            records: shard.run.records.push(record),
        }),
        shard.run.records.len() >= shard.room ==> shard.ingest(record).run == (Run {
            oldest: shard.run.oldest + 1,
            records: shard.run.records.push(record).skip(1),
        }),
        shard.ingest(record).services == with_offset(
            shard.services,
            record.service,
            (shard.run.oldest + shard.run.records.len()) as u64,
        ),
        shard.ingest(record).hosts == with_offset(
            shard.hosts,
            record.host,
            (shard.run.oldest + shard.run.records.len()) as u64,
        ),
        shard.ingest(record) == (CoreView {
            run: shard.ingest(record).run,
            services: shard.ingest(record).services,
            hosts: shard.ingest(record).hosts,
            ..shard
        }),
{
}

/// A new shard has the range and the room that were asked for, no records, no listed
/// offsets, no windows but their size, and no queries counted.
pub proof fn new_shards_are_empty(id: usize, time_start: i64, time_end: i64, room: nat)
    ensures
        CoreView::empty(id, time_start, time_end, room) == (CoreView {
            id,
            time_start,
            time_end,
            run: Run { oldest: 0, records: Seq::empty() },
            room,
            services: Map::empty(),
            hosts: Map::empty(),
            windows: Set::empty(),
            window_size: 10,
            stack: Seq::empty(),
            queries: 0,
        }),
{
}

/// Where windows went, an index lists of each key the offsets from the oldest that is left
/// on, and where none went, what it listed before.
pub proof fn evicted_offsets_are_not_listed(
    index: Map<Seq<char>, Seq<u64>>,
    evicted: Seq<i64>,
    left: Run,
    key: Seq<char>,
)
    requires
        left.oldest <= u64::MAX,
    ensures
        evicted.len() == 0 ==> purged_after(index, evicted, left) == index,
        evicted.len() > 0 && purged_after(index, evicted, left).contains_key(key) ==> {
            &&& index.contains_key(key)
            &&& purged_after(index, evicted, left)[key] == index[key].filter(
                |offset: u64| offset >= left.oldest,
            )
        },
        evicted.len() > 0 && !purged_after(index, evicted, left).contains_key(key)
            && index.contains_key(key) ==> forall|i: int|
            0 <= i < index[key].len() ==> #[trigger] index[key][i] < left.oldest,
{
    let oldest = left.oldest as u64;
    purging_keeps_what_is_not_below(index, oldest, key);
    let p = |offset: u64| offset >= left.oldest;
    let q = |offset: u64| offset >= oldest;
    assert(p =~= q);
}

/// A run that was shortened has lost nothing but its oldest records.
pub proof fn shortened_runs_keep_their_end(before: Run, after: Run)
    ensures
        shortened(before, after) <==> {
            let gone = before.records.len() - after.records.len();
            &&& gone >= 0
            &&& after.oldest == before.oldest + gone
            &&& after.records == before.records.skip(gone)
        },
{
    let gone = before.records.len() - after.records.len();
    if shortened(before, after) {
        let count = choose|count: nat| after == #[trigger] before.evict(count);
        if count > before.records.len() {
            assert(before.records.skip(gone) =~= after.records);
        }
    }
    if gone >= 0 && after.oldest == before.oldest + gone && after.records == before.records.skip(
        gone,
    ) {
        assert(after =~= before.evict(gone as nat));
    }
}

} // verus!
