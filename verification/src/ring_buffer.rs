//! A fixed-capacity circular buffer.

use crate::log_entry::{entry_records, LogEntry, Record};
use crate::partition::Run;
use vstd::prelude::*;

verus! {

/// Fixed-capacity circular buffer for log entries. Append-only, contiguous in
/// memory; it evicts from the head. Every entry gets a global offset, by which it
/// is found, and lies in the slot of its offset modulo the capacity.
pub struct RingBuffer {
    buf: Vec<Option<LogEntry>>,
    capacity: usize,
    /// The next write position.
    write_pos: usize,
    /// The number of entries stored.
    len: usize,
    /// The next global offset.
    global_offset: u64,
}

/// Two offsets less than `capacity` apart have different slots.
proof fn lemma_slots_differ(a: int, b: int, capacity: int)
    requires
        0 <= a < b < a + capacity,
    ensures
        a % capacity != b % capacity,
{
    vstd::arithmetic::div_mod::lemma_fundamental_div_mod(a, capacity);
    vstd::arithmetic::div_mod::lemma_fundamental_div_mod(b, capacity);
    let qa = a / capacity;
    let qb = b / capacity;
    if a % capacity == b % capacity {
        assert(b - a == capacity * (qb - qa)) by (nonlinear_arith)
            requires
                a == capacity * qa + a % capacity,
                b == capacity * qb + b % capacity,
                a % capacity == b % capacity,
        ;
        assert(false) by (nonlinear_arith)
            requires
                b - a == capacity * (qb - qa),
                0 < b - a < capacity,
        ;
    }
}

/// Slots follow each other round the ring.
proof fn lemma_next_slot(a: int, capacity: int)
    requires
        0 <= a,
        0 < capacity,
    ensures
        (a % capacity + 1) % capacity == (a + 1) % capacity,
{
    vstd::arithmetic::div_mod::lemma_add_mod_noop(a, 1, capacity);
    vstd::arithmetic::div_mod::lemma_add_mod_noop(a % capacity, 1, capacity);
    vstd::arithmetic::div_mod::lemma_mod_twice(a, capacity);
}

impl View for RingBuffer {
    type V = Run;

    closed spec fn view(&self) -> Run {
        Run {
            oldest: (self.global_offset - self.len) as nat,
            records: Seq::new(
                self.len as nat,
                |i: int| self.slot(self.global_offset - self.len + i)->0@,
            ),
        }
    }
}

/// An offset and what the entry there says.
pub open spec fn numbered(run: Run, i: int) -> (u64, Record) {
    ((run.oldest + i) as u64, run.records[i])
}

impl RingBuffer {
    /// What the slot of an offset holds.
    closed spec fn slot(&self, offset: int) -> Option<LogEntry> {
        self.buf@[offset % self.capacity as int]
    }

    /// The number of entries that fit.
    pub closed spec fn room(&self) -> nat {
        self.capacity as nat
    }

    pub closed spec fn wf(&self) -> bool {
        &&& self.buf@.len() == self.capacity
        &&& self.len <= self.capacity
        &&& self.len <= self.global_offset
        &&& self.capacity > 0 ==> self.write_pos == self.global_offset as int
            % self.capacity as int
        &&& forall|offset: int|
            self.global_offset - self.len <= offset < self.global_offset ==> (
            #[trigger] self.slot(offset)) is Some
    }

    /// A well-formed buffer holds no more than fits, and its offsets are `u64`
    /// values.
    pub proof fn bounds(&self)
        requires
            self.wf(),
        ensures
            self@.records.len() <= self.room() <= usize::MAX,
            self@.next() <= u64::MAX,
    {
    }

    /// `capacity` empty slots.
    fn empty_slots(capacity: usize) -> (buf: Vec<Option<LogEntry>>)
        ensures
            buf@.len() == capacity,
            forall|i: int| 0 <= i < capacity ==> (#[trigger] buf@[i]) is None,
    {
        let mut buf: Vec<Option<LogEntry>> = Vec::with_capacity(capacity);
        let mut i: usize = 0;
        while i < capacity
            invariant
                i <= capacity,
                buf@.len() == i,
                forall|j: int| 0 <= j < i ==> (#[trigger] buf@[j]) is None,
            decreases capacity - i,
        {
            buf.push(None);
            i += 1;
        }
        buf
    }

    pub fn new(capacity: usize) -> (buffer: Self)
        ensures
            buffer.wf(),
            buffer@ == (Run { oldest: 0, records: Seq::empty() }),
            buffer.room() == capacity,
    {
        let buffer = RingBuffer {
            buf: Self::empty_slots(capacity),
            capacity,
            write_pos: 0,
            len: 0,
            global_offset: 0,
        };
        assert(buffer@.records =~= Seq::empty());
        buffer
    }

    /// Appends an entry and returns its global offset. If the buffer is full, the
    /// oldest entry is overwritten.
    pub fn push(&mut self, entry: LogEntry) -> (offset: u64)
        requires
            old(self).wf(),
            old(self).room() > 0,
            old(self)@.next() < u64::MAX,
        ensures
            final(self).wf(),
            offset == old(self)@.next(),
            final(self).room() == old(self).room(),
            final(self)@ == if old(self)@.records.len() < old(self).room() {
                old(self)@.push(entry@)
            } else {
                old(self)@.push(entry@).evict(1)
            },
    {
        let offset: u64 = self.global_offset;
        let ghost record = entry@;
        self.buf[self.write_pos] = Some(entry);
        self.write_pos = (self.write_pos + 1) % self.capacity;
        if self.len < self.capacity {
            self.len = self.len + 1;
        }
        self.global_offset = self.global_offset + 1;
        proof {
            let before = *old(self);
            let cap = self.capacity as int;
            lemma_next_slot(offset as int, cap);
            assert forall|at: int|
                self.global_offset - self.len <= at < offset implies #[trigger] self.slot(at)
                == before.slot(at) by {
                lemma_slots_differ(at, offset as int, cap);
            }
            assert(self.slot(offset as int) == Some(entry));
            assert forall|at: int|
                self.global_offset - self.len <= at < self.global_offset implies (
            #[trigger] self.slot(at)) is Some by {
                if at < offset {
                    assert(self.slot(at) == before.slot(at));
                }
            }
            let wanted = if before@.records.len() < before.room() {
                before@.push(record)
            } else {
                before@.push(record).evict(1)
            };
            assert forall|i: int| 0 <= i < self@.records.len() implies self@.records[i]
                == wanted.records[i] by {
                let at = self.global_offset - self.len + i;
                if at < offset {
                    assert(self.slot(at) == before.slot(at));
                }
            }
            assert(self@.records =~= wanted.records);
        }
        offset
    }

    /// The entry at a global offset, or `None` if it was evicted or never
    /// written.
    pub fn get(&self, global_offset: u64) -> (entry: Option<&LogEntry>)
        requires
            self.wf(),
        ensures
            match entry {
                Some(e) => {
                    &&& self@.oldest <= global_offset < self@.next()
                    &&& e@ == self@.records[global_offset - self@.oldest]
                },
                None => !(self@.oldest <= global_offset < self@.next()),
            },
    {
        let oldest_offset: u64 = self.oldest_offset();
        if global_offset < oldest_offset || global_offset >= self.global_offset {
            return None;
        }
        let ring_idx: usize = (global_offset % self.capacity as u64) as usize;
        proof {
            assert(self.slot(global_offset as int) is Some);
            assert(self@.records[global_offset - self@.oldest] == self.slot(
                global_offset as int,
            )->0@);
        }
        self.buf[ring_idx].as_ref()
    }

    /// Evicts up to `count` entries from the head and returns how many went.
    pub fn evict_head(&mut self, count: usize) -> (evicted: usize)
        requires
            old(self).wf(),
        ensures
            final(self).wf(),
            final(self).room() == old(self).room(),
            evicted == if count <= old(self)@.records.len() {
                count as nat
            } else {
                old(self)@.records.len()
            },
            final(self)@ == old(self)@.evict(count as nat),
    {
        let to_evict: usize = if count < self.len {
            count
        } else {
            self.len
        };
        let oldest_offset: u64 = self.oldest_offset();
        let mut i: usize = 0;
        while i < to_evict
            invariant
                old(self).wf(),
                i <= to_evict <= old(self).len,
                oldest_offset == old(self).global_offset - old(self).len,
                self.buf@.len() == old(self).buf@.len(),
                self.capacity == old(self).capacity,
                self.write_pos == old(self).write_pos,
                self.len == old(self).len,
                self.global_offset == old(self).global_offset,
                forall|at: int|
                    oldest_offset + to_evict <= at < self.global_offset ==> #[trigger] self.slot(at)
                        == old(self).slot(at),
            decreases to_evict - i,
        {
            let ghost before = *self;
            let offset: u64 = oldest_offset + i as u64;
            let ring_idx: usize = (offset % self.capacity as u64) as usize;
            self.buf[ring_idx] = None;
            proof {
                assert forall|at: int|
                    oldest_offset + to_evict <= at < self.global_offset implies (
                #[trigger] self.slot(at)) == old(self).slot(at) by {
                    assert(before.slot(at) == old(self).slot(at));
                    lemma_slots_differ(offset as int, at, self.capacity as int);
                }
            }
            i += 1;
        }
        let ghost swept = *self;
        self.len = self.len - to_evict;
        proof {
            let before = *old(self);
            assert forall|at: int|
                self.global_offset - self.len <= at < self.global_offset implies (
            #[trigger] self.slot(at)) is Some by {
                assert(swept.slot(at) == before.slot(at));
            }
            let wanted = before@.evict(count as nat);
            assert forall|j: int| 0 <= j < self@.records.len() implies self@.records[j]
                == wanted.records[j] by {
                let at = self.global_offset - self.len + j;
                assert(swept.slot(at) == before.slot(at));
            }
            assert(self@.records =~= wanted.records);
        }
        to_evict
    }

    pub fn len(&self) -> (len: usize)
        ensures
            len == self@.records.len(),
    {
        self.len
    }

    pub fn is_full(&self) -> (full: bool)
        ensures
            full == (self@.records.len() == self.room()),
    {
        self.len == self.capacity
    }

    pub fn capacity(&self) -> (capacity: usize)
        ensures
            capacity == self.room(),
    {
        self.capacity
    }

    /// The oldest global offset still present in the buffer.
    pub fn oldest_offset(&self) -> (offset: u64)
        requires
            self.wf(),
        ensures
            offset == self@.oldest,
    {
        self.global_offset.saturating_sub(self.len as u64)
    }

    /// The next global offset that will be assigned.
    pub fn next_offset(&self) -> (offset: u64)
        requires
            self.wf(),
        ensures
            offset == self@.next(),
    {
        self.global_offset
    }

    /// A buffer with the given entries, oldest first, of which there are `len`;
    /// the next offset is `global_offset`.
    pub fn restore(
        capacity: usize,
        global_offset: u64,
        len: usize,
        entries: Vec<LogEntry>,
    ) -> (buffer: Self)
        requires
            capacity > 0,
            entries@.len() == len,
            len <= capacity,
            len <= global_offset,
        ensures
            buffer.wf(),
            buffer.room() == capacity,
            buffer@ == (Run {
                oldest: (global_offset - len) as nat,
                records: entry_records(entries@),
            }),
    {
        let mut buf: Vec<Option<LogEntry>> = Self::empty_slots(capacity);
        let oldest: u64 = global_offset - len as u64;
        let ghost all = entries@;
        let mut i: usize = 0;
        for entry in it: entries
            invariant
                it.seq() == all,
                all.len() == len,
                i == it.index(),
                len <= capacity,
                oldest + len == global_offset,
                buf@.len() == capacity,
                forall|j: int|
                    0 <= j < i ==> buf@[(oldest + j) % (capacity as int)] == Some(
                        #[trigger] all[j],
                    ),
        {
            let ghost before = buf@;
            let offset: u64 = oldest + i as u64;
            let ring_idx: usize = (offset % capacity as u64) as usize;
            buf[ring_idx] = Some(entry);
            proof {
                assert(entry == all[i as int]);
                assert forall|j: int| 0 <= j < i + 1 implies buf@[(oldest + j) % (capacity as int)]
                    == Some(#[trigger] all[j]) by {
                    if j < i {
                        lemma_slots_differ(oldest + j, offset as int, capacity as int);
                        assert(before[(oldest + j) % (capacity as int)] == Some(all[j]));
                        vstd::arithmetic::div_mod::lemma_mod_bound(oldest + j, capacity as int);
                    }
                }
            }
            i += 1;
        }
        let write_pos: usize = (global_offset % capacity as u64) as usize;
        let buffer = RingBuffer { buf, capacity, write_pos, len, global_offset };
        proof {
            assert forall|at: int| oldest <= at < global_offset implies (
            #[trigger] buffer.slot(at)) == Some(all[at - oldest]) by {
                let j = at - oldest;
                assert(buf@[(oldest + j) % (capacity as int)] == Some(all[j]));
            }
            assert(buffer@.records =~= entry_records(all)) by {
                assert forall|j: int| 0 <= j < len implies buffer@.records[j] == all[j]@ by {
                    assert(buffer.slot(oldest + j) == Some(all[oldest + j - oldest]));
                }
            }
        }
        buffer
    }

    /// Walks over all live entries, oldest first.
    pub fn iter(&self) -> (iter: RingBufferIter<'_>)
        requires
            self.wf(),
        ensures
            iter.wf(),
            iter.remaining() == Seq::new(self@.records.len(), |i: int| numbered(self@, i)),
    {
        let iter = RingBufferIter {
            rb: self,
            current: self.oldest_offset(),
            end: self.global_offset,
        };
        assert(iter.remaining() =~= Seq::new(self@.records.len(), |i: int| numbered(self@, i)));
        iter
    }
}

/// A walk over the live entries of a buffer.
pub struct RingBufferIter<'a> {
    rb: &'a RingBuffer,
    current: u64,
    end: u64,
}

impl<'a> RingBufferIter<'a> {
    pub closed spec fn wf(&self) -> bool {
        &&& self.rb.wf()
        &&& self.rb@.oldest <= self.current <= self.end
        &&& self.end == self.rb@.next()
    }

    /// What is still to come: offsets, and what the entries there say.
    pub closed spec fn remaining(&self) -> Seq<(u64, Record)> {
        Seq::new(
            (self.end - self.current) as nat,
            |i: int| numbered(self.rb@, self.current - self.rb@.oldest + i),
        )
    }

    /// The next entry with its offset.
    pub fn next(&mut self) -> (item: Option<(u64, &'a LogEntry)>)
        requires
            old(self).wf(),
        ensures
            final(self).wf(),
            match item {
                Some((offset, entry)) => {
                    &&& old(self).remaining().len() > 0
                    &&& (offset, entry@) == old(self).remaining().first()
                    &&& final(self).remaining() == old(self).remaining().drop_first()
                },
                None => {
                    &&& old(self).remaining().len() == 0
                    &&& final(self).remaining() == old(self).remaining()
                },
            },
    {
        if self.current < self.end {
            let offset: u64 = self.current;
            self.current = offset + 1;
            if let Some(entry) = self.rb.get(offset) {
                assert(self.remaining() =~= old(self).remaining().drop_first());
                return Some((offset, entry));
            }
        }
        None
    }
}

/// A walk shows every live entry with the offset at which it lies.
pub proof fn walks_show_offsets(run: Run, i: int)
    requires
        0 <= i < run.records.len(),
        run.oldest + run.records.len() <= u64::MAX,
    ensures
        numbered(run, i).0 == run.oldest + i,
        numbered(run, i).1 == run.records[i],
{
}

} // verus!
