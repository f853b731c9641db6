//! Virtual nodes: ranges of time that are laid over core shards.

use crate::core_shard::{earlier, later, CoreShard, CoreView};
use crate::log_entry::Record;
use crate::offsets::{index_of, lemma_index_of, lemma_index_of_none, within, Dimension};
use crate::partition::Run;
use crate::ring_buffer::{numbered, RingBufferIter};
use vstd::prelude::*;

verus! {

/// A virtual node: a range of time `[time_start, time_end)` and the core shard
/// that it is mapped to.
#[derive(Clone, Copy, Debug)]
pub struct VNode {
    pub time_start: i64,
    pub time_end: i64,
    pub core_id: usize,
}

/// What a split did.
#[derive(Clone, Copy, Debug)]
pub struct SplitResult {
    pub old_vnode_idx: usize,
    pub new_core_id: usize,
    pub split_point: i64,
}

/// Ranges of time laid over core shards.
pub struct VNodeRing {
    /// Sorted by their starts.
    pub vnodes: Vec<VNode>,
    pub shards: Vec<CoreShard>,
    /// The capacity of each shard's ring buffer.
    pub shard_capacity: usize,
}

/// What a ring holds.
#[verifier::ext_equal]
pub struct RingView {
    pub vnodes: Seq<VNode>,
    pub shards: Seq<CoreView>,
    pub shard_capacity: usize,
}

/// What each of a sequence of shards holds.
pub open spec fn core_views(shards: Seq<CoreShard>) -> Seq<CoreView> {
    shards.map_values(|s: CoreShard| s@)
}

impl View for VNodeRing {
    type V = RingView;

    open spec fn view(&self) -> RingView {
        RingView {
            vnodes: self.vnodes@,
            shards: core_views(self.shards@),
            shard_capacity: self.shard_capacity,
        }
    }
}

/// Division that drops the fraction.
pub open spec fn truncated(a: int, b: int) -> int {
    if a >= 0 {
        a / b
    } else {
        -((-a) / b)
    }
}

/// The `i`-th of `count` equal slices of the time up to `max_time`; the last one
/// takes what is left over.
pub open spec fn slice_node(count: nat, max_time: i64, i: int) -> VNode {
    let slice = truncated(max_time as int, count as int);
    VNode {
        time_start: (i * slice) as i64,
        time_end: if i == count - 1 {
            max_time
        } else {
            ((i + 1) * slice) as i64
        },
        core_id: i as usize,
    }
}

/// The starts come in nondecreasing order.
pub open spec fn sorted_starts(vnodes: Seq<VNode>) -> bool {
    forall|i: int, j: int|
        0 <= i <= j < vnodes.len() ==> (#[trigger] vnodes[i]).time_start <= (
        #[trigger] vnodes[j]).time_start
}

/// The vnode that owns a timestamp: the last one that does not start behind it, if
/// it has not ended by then.
pub open spec fn owner(vnodes: Seq<VNode>, timestamp: i64) -> Option<int>
    decreases vnodes.len(),
{
    if vnodes.len() == 0 {
        None
    } else if vnodes.last().time_start <= timestamp {
        if timestamp < vnodes.last().time_end {
            Some(vnodes.len() - 1)
        } else {
            None
        }
    } else {
        owner(vnodes.drop_last(), timestamp)
    }
}

/// The positions of the vnodes whose range meets `[t1, t2]`.
pub open spec fn meeting(vnodes: Seq<VNode>, t1: i64, t2: i64) -> Seq<usize>
    decreases vnodes.len(),
{
    if vnodes.len() == 0 {
        Seq::empty()
    } else {
        let rest = meeting(vnodes.drop_last(), t1, t2);
        if t1 < vnodes.last().time_end && t2 >= vnodes.last().time_start {
            rest.push((vnodes.len() - 1) as usize)
        } else {
            rest
        }
    }
}

/// Where a range is split: at the given midpoint, moved inside the range where it
/// lies outside, or in the middle where there is none.
pub open spec fn split_at(start: i64, end: i64, midpoint: Option<i64>) -> int {
    match midpoint {
        Some(m) => if m < start + 1 {
            start + 1
        } else if m > end - 1 {
            end - 1
        } else {
            m as int
        },
        None => truncated(start + end, 2),
    }
}

/// Whether a record's timestamp is not before `start`.
pub open spec fn from_time(start: i64) -> spec_fn(Record) -> bool {
    |record: Record| record.timestamp >= start
}

/// The shard that takes over the end of another one's range.
pub open spec fn split_off(shard: CoreView, id: usize, split_point: i64, end: i64) -> CoreView {
    holding(
        CoreView::empty(id, split_point, end, shard.room),
        shard.run.records.filter(from_time(split_point)),
    )
}

/// An empty shard after records have entered it that fit.
pub open spec fn holding(empty: CoreView, records: Seq<Record>) -> CoreView {
    CoreView {
        run: Run { oldest: 0, records },
        services: index_of(records, 0, Dimension::Service),
        hosts: index_of(records, 0, Dimension::Host),
        ..empty
    }
}

impl RingView {
    /// The ring after the vnode at `at` has been split at `split_point`: the vnode
    /// and its shard end there, and a new vnode behind it leads to a new shard that
    /// holds copies of the records from there on.
    pub open spec fn split(self, at: int, split_point: i64) -> RingView {
        let vnode = self.vnodes[at];
        let core = vnode.core_id as int;
        let new_id = self.shards.len() as usize;
        RingView {
            vnodes: self.vnodes.update(at, VNode { time_end: split_point, ..vnode }).insert(
                at + 1,
                VNode { time_start: split_point, time_end: vnode.time_end, core_id: new_id },
            ),
            shards: self.shards.update(
                core,
                CoreView { time_end: split_point, ..self.shards[core] },
            ).push(split_off(self.shards[core], new_id, split_point, vnode.time_end)),
            ..self
        }
    }
}

impl VNodeRing {
    /// Every vnode leads to a shard, and every shard is well formed and has the
    /// ring's capacity.
    pub open spec fn wf(&self) -> bool {
        &&& forall|i: int|
            0 <= i < self.vnodes@.len() ==> (#[trigger] self.vnodes@[i]).core_id
                < self.shards@.len()
        &&& forall|i: int| 0 <= i < self.shards@.len() ==> (#[trigger] self.shards@[i]).wf()
        &&& forall|i: int|
            0 <= i < self.shards@.len() ==> (#[trigger] self.shards@[i])@.room
                == self.shard_capacity
    }

    /// A ring with `num_cores` shards, each owning an equal slice of
    /// `[0, max_time)`.
    pub fn new(num_cores: usize, max_time: i64, shard_capacity: usize) -> (ring: Self)
        requires
            0 < num_cores <= i64::MAX,
        ensures
            ring.wf(),
            ring@.vnodes == Seq::new(
                num_cores as nat,
                |i: int| slice_node(num_cores as nat, max_time, i),
            ),
            ring@.shards == Seq::new(
                num_cores as nat,
                |i: int|
                    CoreView::empty(
                        i as usize,
                        slice_node(num_cores as nat, max_time, i).time_start,
                        slice_node(num_cores as nat, max_time, i).time_end,
                        shard_capacity as nat,
                    ),
            ),
            ring@.shard_capacity == shard_capacity,
            max_time >= 0 ==> sorted_starts(ring@.vnodes),
    {
        let slice: i64 = max_time / num_cores as i64;
        let ghost count = num_cores as nat;
        let mut vnodes: Vec<VNode> = Vec::new();
        let mut shards: Vec<CoreShard> = Vec::new();
        let mut i: usize = 0;
        while i < num_cores
            invariant
                0 < num_cores <= i64::MAX,
                count == num_cores,
                slice == truncated(max_time as int, count as int),
                i <= num_cores,
                vnodes@ =~= Seq::new(i as nat, |k: int| slice_node(count, max_time, k)),
                shards@.len() == i,
                core_views(shards@) =~= Seq::new(
                    i as nat,
                    |k: int|
                        CoreView::empty(
                            k as usize,
                            slice_node(count, max_time, k).time_start,
                            slice_node(count, max_time, k).time_end,
                            shard_capacity as nat,
                        ),
                ),
                forall|k: int| 0 <= k < shards@.len() ==> (#[trigger] shards@[k]).wf(),
            decreases num_cores - i,
        {
            proof {
                lemma_slice_fits(count, max_time, i as int);
                lemma_slice_fits(count, max_time, i + 1);
            }
            let start: i64 = i as i64 * slice;
            let end: i64 = if i == num_cores - 1 {
                max_time
            } else {
                (i as i64 + 1) * slice
            };
            let ghost before = shards@;
            vnodes.push(VNode { time_start: start, time_end: end, core_id: i });
            shards.push(CoreShard::new(i, start, end, shard_capacity));
            assert(core_views(shards@) =~= core_views(before).push(
                CoreView::empty(i, start, end, shard_capacity as nat),
            ));
            i += 1;
        }
        let ring = VNodeRing { vnodes, shards, shard_capacity };
        proof {
            assert forall|k: int| 0 <= k < ring.shards@.len() implies (
            #[trigger] ring.shards@[k])@.room == shard_capacity by {
                assert(ring.shards@[k]@ == core_views(ring.shards@)[k]);
            }
            if max_time >= 0 {
                assert forall|a: int, b: int| 0 <= a <= b < vnodes@.len() implies (
                #[trigger] vnodes@[a]).time_start <= (#[trigger] vnodes@[b]).time_start by {
                    lemma_slice_fits(count, max_time, a);
                    lemma_slice_fits(count, max_time, b);
                    assert(a * slice <= b * slice) by (nonlinear_arith)
                        requires
                            a <= b,
                            slice >= 0,
                    ;
                }
            }
        }
        ring
    }

    /// The vnode that owns a timestamp, by binary search.
    pub fn find_vnode(&self, timestamp: i64) -> (at: Option<usize>)
        requires
            sorted_starts(self@.vnodes),
        ensures
            match at {
                Some(i) => owner(self@.vnodes, timestamp) == Some(i as int),
                None => owner(self@.vnodes, timestamp) is None,
            },
    {
        let mut low: usize = 0;
        let mut high: usize = self.vnodes.len();
        while low < high
            invariant
                sorted_starts(self.vnodes@),
                low <= high <= self.vnodes@.len(),
                forall|i: int|
                    0 <= i < low ==> (#[trigger] self.vnodes@[i]).time_start <= timestamp,
                forall|i: int|
                    high <= i < self.vnodes@.len() ==> (#[trigger] self.vnodes@[i]).time_start
                        > timestamp,
            decreases high - low,
        {
            let mid: usize = low + (high - low) / 2;
            if self.vnodes[mid].time_start <= timestamp {
                assert forall|i: int| 0 <= i < mid + 1 implies (
                #[trigger] self.vnodes@[i]).time_start <= timestamp by {
                    assert(self.vnodes@[i].time_start <= self.vnodes@[mid as int].time_start);
                }
                low = mid + 1;
            } else {
                assert forall|i: int| mid <= i < self.vnodes@.len() implies (
                #[trigger] self.vnodes@[i]).time_start > timestamp by {
                    assert(self.vnodes@[mid as int].time_start <= self.vnodes@[i].time_start);
                }
                high = mid;
            }
        }
        proof {
            lemma_owner(self.vnodes@, timestamp, low as int);
        }
        if low == 0 {
            return None;
        }
        let at: usize = low - 1;
        if timestamp < self.vnodes[at].time_end {
            Some(at)
        } else {
            None
        }
    }

    /// All vnodes whose range meets `[t1, t2]`.
    pub fn find_vnodes_in_range(&self, t1: i64, t2: i64) -> (found: Vec<usize>)
        ensures
            found@ == meeting(self@.vnodes, t1, t2),
            forall|i: int|
                0 <= i < self@.vnodes.len() ==> (found@.contains(i as usize) <==> t1 < (
                #[trigger] self@.vnodes[i]).time_end && self@.vnodes[i].time_start <= t2),
    {
        let mut found: Vec<usize> = Vec::new();
        let mut i: usize = 0;
        while i < self.vnodes.len()
            invariant
                i <= self.vnodes@.len(),
                found@ == meeting(self.vnodes@.take(i as int), t1, t2),
            decreases self.vnodes@.len() - i,
        {
            assert(self.vnodes@.take(i + 1).drop_last() =~= self.vnodes@.take(i as int));
            if t1 < self.vnodes[i].time_end && t2 >= self.vnodes[i].time_start {
                found.push(i);
            }
            i += 1;
        }
        proof {
            assert(self.vnodes@.take(i as int) =~= self.vnodes@);
            lemma_meeting(self.vnodes@, t1, t2);
            assert forall|k: int| 0 <= k < self@.vnodes.len() implies (found@.contains(k as usize)
                <==> t1 < (#[trigger] self@.vnodes[k]).time_end && self@.vnodes[k].time_start
                <= t2) by {
                if found@.contains(k as usize) {
                    let m = choose|m: int| 0 <= m < found@.len() && found@[m] == k as usize;
                    assert(met(self.vnodes@, t1, t2, found@[m]));
                }
            }
        }
        found
    }

    /// The core shard of a vnode.
    pub fn shard_for_vnode(&self, vnode_idx: usize) -> (shard: &CoreShard)
        requires
            self.wf(),
            vnode_idx < self@.vnodes.len(),
        ensures
            *shard == self.shards@[self@.vnodes[vnode_idx as int].core_id as int],
    {
        &self.shards[self.vnodes[vnode_idx].core_id]
    }

    /// The core shard of a vnode, to change it.
    pub fn shard_for_vnode_mut(&mut self, vnode_idx: usize) -> (shard: &mut CoreShard)
        requires
            old(self).wf(),
            vnode_idx < old(self)@.vnodes.len(),
        ensures
            *shard == old(self).shards@[old(self)@.vnodes[vnode_idx as int].core_id as int],
            final(self).shards@ == old(self).shards@.update(
                old(self)@.vnodes[vnode_idx as int].core_id as int,
                *final(shard),
            ),
            final(self).vnodes == old(self).vnodes,
            final(self).shard_capacity == old(self).shard_capacity,
    {
        let core_id: usize = self.vnodes[vnode_idx].core_id;
        &mut self.shards[core_id]
    }

    /// The windows by whose scores the split of a vnode is weighed: from the start
    /// of its range in steps of its shard's window size.
    pub fn windows_to_weigh(&self, vnode_idx: usize) -> (keys: Vec<i64>)
        requires
            self.wf(),
            vnode_idx < self@.vnodes.len(),
        ensures
            keys@ == steps(
                self@.vnodes[vnode_idx as int].time_start as int,
                self@.vnodes[vnode_idx as int].time_end as int,
                self@.shards[self@.vnodes[vnode_idx as int].core_id as int].window_size as int,
            ),
    {
        let vnode: VNode = self.vnodes[vnode_idx];
        let size: i64 = self.shards[vnode.core_id].window_meta.window_size();
        let ghost start = vnode.time_start as int;
        let ghost end = vnode.time_end as int;
        let mut keys: Vec<i64> = Vec::new();
        let mut w: i64 = vnode.time_start;
        proof {
            assert(self@.shards[vnode.core_id as int] == self.shards@[vnode.core_id as int]@);
            let none = keys@.len();
            assert(none * size == 0) by (nonlinear_arith)
                requires
                    none == 0,
            ;
        }
        loop
            invariant_except_break
                w == start + keys@.len() * size,
                keys@ =~= Seq::new(keys@.len(), |k: int| (start + k * size) as i64),
                keys@.len() > 0 ==> start < end && start + (keys@.len() - 1) * size < end,
            invariant
                size > 0,
                start == vnode.time_start,
                end == vnode.time_end,
            ensures
                keys@ == steps(start, end, size as int),
            decreases end + size - w,
        {
            let ghost done = keys@.len() as int;
            if w >= vnode.time_end {
                proof {
                    if done > 0 {
                        lemma_steps(start, end, size as int, done);
                    } else {
                        assert(done * size == 0) by (nonlinear_arith)
                            requires
                                done == 0,
                        ;
                    }
                    assert(keys@ =~= steps(start, end, size as int));
                }
                break;
            }
            keys.push(w);
            assert(done * size + size == (done + 1) * size) by (nonlinear_arith);
            assert(done * size >= 0) by (nonlinear_arith)
                requires
                    done >= 0,
                    size > 0,
            ;
            if w > i64::MAX - size {
                proof {
                    lemma_steps(start, end, size as int, done + 1);
                    assert(keys@ =~= steps(start, end, size as int));
                }
                break;
            }
            w = w + size;
        }
        keys
    }

    /// Splits a vnode: a new shard takes over the end of its range, with copies of
    /// the entries there. `density_midpoint` is where queries concentrate, if that
    /// is known; without it the range is split in the middle. A range of one
    /// timestamp or none cannot be split.
    pub fn split_vnode(
        &mut self,
        vnode_idx: usize,
        density_midpoint: Option<i64>,
    ) -> (split: Option<SplitResult>)
        requires
            old(self).wf(),
            vnode_idx < old(self)@.vnodes.len(),
            ({
                let vnode = old(self)@.vnodes[vnode_idx as int];
                let range = vnode.time_end - vnode.time_start;
                &&& i64::MIN <= range <= i64::MAX
                &&& range > 1 && density_midpoint is None ==> i64::MIN <= vnode.time_start
                    + vnode.time_end <= i64::MAX
            }),
        ensures
            final(self).wf(),
            ({
                let vnode = old(self)@.vnodes[vnode_idx as int];
                if vnode.time_end - vnode.time_start <= 1 {
                    &&& split is None
                    &&& final(self)@ == old(self)@
                } else {
                    let point = split_at(vnode.time_start, vnode.time_end, density_midpoint);
                    &&& vnode.time_start < point < vnode.time_end
                    &&& split == Some(
                        SplitResult {
                            old_vnode_idx: vnode_idx,
                            new_core_id: old(self)@.shards.len() as usize,
                            split_point: point as i64,
                        },
                    )
                    &&& final(self)@ == old(self)@.split(vnode_idx as int, point as i64)
                }
            }),
    {
        let vnode: VNode = self.vnodes[vnode_idx];
        let range: i64 = vnode.time_end - vnode.time_start;
        if range <= 1 {
            return None;
        }
        let old_core_id: usize = vnode.core_id;
        let split_point: i64 = Self::compute_split_point(
            vnode.time_start,
            vnode.time_end,
            density_midpoint,
        );
        let new_core_id: usize = self.shards.len();
        let ghost before = *self;
        let ghost old_shard = self.shards@[old_core_id as int];
        proof {
            assert(before@.shards[old_core_id as int] == old_shard@);
            old_shard.ring_buffer.bounds();
        }
        let new_shard: CoreShard = self.copy_from(
            old_core_id,
            new_core_id,
            split_point,
            vnode.time_end,
        );
        self.shards.push(new_shard);
        assert(vnode_idx < self.vnodes.len());
        self.vnodes[vnode_idx].time_end = split_point;
        self.shards[old_core_id].time_end = split_point;
        self.vnodes.insert(
            vnode_idx + 1,
            VNode { time_start: split_point, time_end: vnode.time_end, core_id: new_core_id },
        );
        proof {
            let wanted = before@.split(vnode_idx as int, split_point);
            assert(self@.vnodes =~= wanted.vnodes);
            assert(self.shards@[old_core_id as int]@ =~= (CoreView {
                time_end: split_point,
                ..old_shard@
            }));
            assert forall|i: int| 0 <= i < self.shards@.len() implies core_views(self.shards@)[i]
                == wanted.shards[i] by {
                if i < before.shards@.len() && i != old_core_id {
                    assert(self.shards@[i] == before.shards@[i]);
                    assert(before@.shards[i] == before.shards@[i]@);
                }
            }
            assert(self@.shards =~= wanted.shards);
            assert forall|i: int| 0 <= i < self.shards@.len() implies (
            #[trigger] self.shards@[i]).wf() by {
                if i < before.shards@.len() && i != old_core_id {
                    assert(self.shards@[i] == before.shards@[i]);
                }
            }
            assert forall|i: int| 0 <= i < self.shards@.len() implies (
            #[trigger] self.shards@[i])@.room == self.shard_capacity by {
                if i < before.shards@.len() && i != old_core_id {
                    assert(self.shards@[i] == before.shards@[i]);
                }
            }
            assert forall|i: int| 0 <= i < self.vnodes@.len() implies (
            #[trigger] self.vnodes@[i]).core_id < self.shards@.len() by {
                assert(self.vnodes@[i] == wanted.vnodes[i]);
                if i <= vnode_idx {
                    assert(before.vnodes@[i].core_id < before.shards@.len());
                } else if i > vnode_idx + 1 {
                    assert(before.vnodes@[i - 1].core_id < before.shards@.len());
                }
            }
        }
        Some(SplitResult { old_vnode_idx: vnode_idx, new_core_id, split_point })
    }

    /// A new shard with copies of the entries of another one from `split_point` on.
    fn copy_from(&self, core_id: usize, new_core_id: usize, split_point: i64, end: i64) -> (shard:
        CoreShard)
        requires
            self.wf(),
            core_id < self.shards@.len(),
        ensures
            shard.wf(),
            shard@ == split_off(self.shards@[core_id as int]@, new_core_id, split_point, end),
    {
        let source: &CoreShard = &self.shards[core_id];
        let mut shard: CoreShard = CoreShard::new(
            new_core_id,
            split_point,
            end,
            self.shard_capacity,
        );
        let mut iter: RingBufferIter = source.ring_buffer.iter();
        let ghost run = source@.run;
        let ghost p = from_time(split_point);
        let ghost all = iter.remaining();
        let ghost blank = shard@;
        let ghost mut done: int = 0;
        proof {
            source.ring_buffer.bounds();
            assert(all.skip(0) =~= all);
            reveal(Seq::filter);
            assert(run.records.take(0).filter(p) =~= Seq::empty());
            lemma_index_of_none(0, Dimension::Service);
            lemma_index_of_none(0, Dimension::Host);
            assert(holding(blank, Seq::empty()) =~= blank);
        }
        loop
            invariant_except_break
                iter.wf(),
                0 <= done <= run.records.len(),
                iter.remaining() == all.skip(done),
                shard@ == holding(blank, run.records.take(done).filter(p)),
            invariant
                shard.wf(),
                run.records.len() <= source@.room,
                source@.room <= usize::MAX,
                blank.room == source@.room,
                p == from_time(split_point),
                all == Seq::new(run.records.len(), |i: int| numbered(run, i)),
            ensures
                shard@ == holding(blank, run.records.filter(p)),
            decreases iter.remaining().len(),
        {
            proof {
                if done < run.records.len() {
                    assert(all.skip(done).first() == all[done]);
                    assert(all.skip(done).drop_first() =~= all.skip(done + 1));
                    lemma_filter_step(run.records, done, p);
                    vstd::seq::Seq::lemma_filter_len(run.records.take(done), p);
                    let held = run.records.take(done).filter(p);
                    let record = run.records[done];
                    lemma_index_of(held, 0, Dimension::Service, record);
                    lemma_index_of(held, 0, Dimension::Host, record);
                }
            }
            match iter.next() {
                Some((_, entry)) => {
                    if entry.timestamp >= split_point {
                        let _ = shard.ingest(entry.clone());
                    }
                },
                None => {
                    assert(run.records.take(done) =~= run.records);
                    break;
                },
            }
            proof {
                done = done + 1;
            }
        }
        shard
    }

    /// Where a range of more than one timestamp is split.
    fn compute_split_point(start: i64, end: i64, density_midpoint: Option<i64>) -> (point: i64)
        requires
            end - start > 1,
            density_midpoint is None ==> i64::MIN <= start + end <= i64::MAX,
        ensures
            point == split_at(start, end, density_midpoint),
            start < point < end,
    {
        match density_midpoint {
            Some(m) => {
                let first: i64 = start + 1;
                let last: i64 = end - 1;
                if m < first {
                    first
                } else if m > last {
                    last
                } else {
                    m
                }
            },
            None => (start + end) / 2,
        }
    }
}

/// The numbers from `start` in steps of `size`, below `end`.
pub open spec fn steps(start: int, end: int, size: int) -> Seq<i64> {
    if start >= end {
        Seq::empty()
    } else {
        Seq::new(((end - start - 1) / size + 1) as nat, |k: int| (start + k * size) as i64)
    }
}

/// How many steps there are.
proof fn lemma_steps(start: int, end: int, size: int, count: int)
    requires
        size > 0,
        count > 0,
        start < end,
        start + (count - 1) * size < end,
        start + count * size >= end,
    ensures
        (end - start - 1) / size + 1 == count,
{
    let n = end - start - 1;
    vstd::arithmetic::div_mod::lemma_fundamental_div_mod(n, size);
    vstd::arithmetic::div_mod::lemma_mod_bound(n, size);
    let q = n / size;
    assert(q == count - 1) by (nonlinear_arith)
        requires
            n == size * q + n % size,
            0 <= n % size < size,
            (count - 1) * size <= n,
            count * size > n,
            size > 0,
    ;
}

/// The bounds of a slice are timestamps.
proof fn lemma_slice_fits(count: nat, max_time: i64, i: int)
    requires
        count > 0,
        0 <= i <= count,
    ensures
        i64::MIN <= i * truncated(max_time as int, count as int) <= i64::MAX,
        max_time >= 0 ==> 0 <= i * truncated(max_time as int, count as int) <= max_time,
        max_time >= 0 ==> truncated(max_time as int, count as int) >= 0,
{
    let t = if max_time >= 0 {
        max_time as int
    } else {
        -max_time
    };
    let c = count as int;
    let q = t / c;
    vstd::arithmetic::div_mod::lemma_fundamental_div_mod(t, c);
    vstd::arithmetic::div_mod::lemma_mod_bound(t, c);
    assert(0 <= q && 0 <= i * q && i * q <= t) by (nonlinear_arith)
        requires
            t == c * q + t % c,
            0 <= t % c < c,
            0 <= i <= c,
            c > 0,
            t >= 0,
    ;
    assert(i * (-q) == -(i * q)) by (nonlinear_arith);
}

/// The vnodes before `low` start by the timestamp and the others do not: then the
/// last one before `low` decides.
proof fn lemma_owner(vnodes: Seq<VNode>, timestamp: i64, low: int)
    requires
        0 <= low <= vnodes.len(),
        forall|i: int| 0 <= i < low ==> (#[trigger] vnodes[i]).time_start <= timestamp,
        forall|i: int| low <= i < vnodes.len() ==> (#[trigger] vnodes[i]).time_start > timestamp,
    ensures
        owner(vnodes, timestamp) == if low > 0 && timestamp < vnodes[low - 1].time_end {
            Some(low - 1)
        } else {
            None
        },
    decreases vnodes.len(),
{
    if low < vnodes.len() {
        let rest = vnodes.drop_last();
        assert(vnodes[vnodes.len() - 1].time_start > timestamp);
        assert forall|i: int| 0 <= i < low implies (#[trigger] rest[i]).time_start <= timestamp by {
            assert(vnodes[i].time_start <= timestamp);
        }
        assert forall|i: int| low <= i < rest.len() implies (#[trigger] rest[i]).time_start
            > timestamp by {
            assert(vnodes[i].time_start > timestamp);
        }
        lemma_owner(rest, timestamp, low);
    } else if low > 0 {
        assert(vnodes[low - 1].time_start <= timestamp);
    }
}

/// What one more record adds to a filtered prefix.
proof fn lemma_filter_step(records: Seq<Record>, i: int, p: spec_fn(Record) -> bool)
    requires
        0 <= i < records.len(),
    ensures
        records.take(i + 1).filter(p) == if p(records[i]) {
            records.take(i).filter(p).push(records[i])
        } else {
            records.take(i).filter(p)
        },
{
    reveal(Seq::filter);
    assert(records.take(i + 1).drop_last() =~= records.take(i));
}

/// The vnodes cover `[low, high)` without gap or overlap, in order.
pub open spec fn tiles(vnodes: Seq<VNode>, low: i64, high: i64) -> bool {
    &&& vnodes.len() > 0
    &&& vnodes[0].time_start == low
    &&& vnodes.last().time_end == high
    &&& forall|i: int|
        0 <= i < vnodes.len() ==> (#[trigger] vnodes[i]).time_start <= vnodes[i].time_end
    &&& forall|i: int, j: int|
        0 <= i && j == i + 1 && j < vnodes.len() ==> (#[trigger] vnodes[i]).time_end == (
        #[trigger] vnodes[j]).time_start
}

/// The slices of a new ring cover the time up to `max_time`.
pub proof fn new_ring_tiles(count: nat, max_time: i64)
    requires
        count > 0,
        max_time >= 0,
    ensures
        tiles(Seq::new(count, |i: int| slice_node(count, max_time, i)), 0, max_time),
{
    let vnodes = Seq::new(count, |i: int| slice_node(count, max_time, i));
    let slice = truncated(max_time as int, count as int);
    assert(0 * slice == 0) by (nonlinear_arith);
    assert forall|i: int| 0 <= i < vnodes.len() implies (#[trigger] vnodes[i]).time_start
        <= vnodes[i].time_end by {
        lemma_slice_fits(count, max_time, i);
        lemma_slice_fits(count, max_time, i + 1);
        assert(i * slice <= (i + 1) * slice) by (nonlinear_arith)
            requires
                slice >= 0,
        ;
    }
    assert forall|i: int, j: int| 0 <= i && j == i + 1 && j < vnodes.len() implies (
    #[trigger] vnodes[i]).time_end == (#[trigger] vnodes[j]).time_start by {
        lemma_slice_fits(count, max_time, j);
    }
}

proof fn lemma_tiles_sorted(vnodes: Seq<VNode>, low: i64, high: i64, i: int, j: int)
    requires
        tiles(vnodes, low, high),
        0 <= i < j < vnodes.len(),
    ensures
        vnodes[i].time_end <= vnodes[j].time_start,
    decreases j - i,
{
    if i + 1 < j {
        lemma_tiles_sorted(vnodes, low, high, i, j - 1);
        assert(vnodes[j - 1].time_start <= vnodes[j - 1].time_end);
        assert(vnodes[j - 1].time_end == vnodes[j].time_start);
    } else {
        assert(vnodes[i].time_end == vnodes[j].time_start);
    }
}

/// Tiles are sorted by their starts, so that they can be searched.
pub proof fn tiles_are_sorted(vnodes: Seq<VNode>, low: i64, high: i64)
    requires
        tiles(vnodes, low, high),
    ensures
        sorted_starts(vnodes),
{
    assert forall|i: int, j: int| 0 <= i <= j < vnodes.len() implies (
    #[trigger] vnodes[i]).time_start <= (#[trigger] vnodes[j]).time_start by {
        if i < j {
            lemma_tiles_sorted(vnodes, low, high, i, j);
            assert(vnodes[i].time_start <= vnodes[i].time_end);
        }
    }
}

/// Every timestamp within tiles has exactly one owner: the vnode that is found
/// contains the timestamp, and no other one does.
pub proof fn every_timestamp_has_one_owner(
    vnodes: Seq<VNode>,
    low: i64,
    high: i64,
    timestamp: i64,
)
    requires
        tiles(vnodes, low, high),
        low <= timestamp < high,
    ensures
        owner(vnodes, timestamp) matches Some(i) && {
            &&& 0 <= i < vnodes.len()
            &&& vnodes[i].time_start <= timestamp < vnodes[i].time_end
            &&& forall|j: int|
                0 <= j < vnodes.len() && (#[trigger] vnodes[j]).time_start <= timestamp
                    < vnodes[j].time_end ==> j == i
        },
{
    tiles_are_sorted(vnodes, low, high);
    let at = lemma_last_started(vnodes, timestamp, vnodes.len() as int);
    lemma_owner(vnodes, timestamp, at + 1);
    assert(timestamp < vnodes[at].time_end) by {
        if at + 1 < vnodes.len() {
            assert(vnodes[at].time_end == vnodes[at + 1].time_start);
        }
    }
    assert forall|j: int|
        0 <= j < vnodes.len() && (#[trigger] vnodes[j]).time_start <= timestamp
            < vnodes[j].time_end implies j == at by {
        if j < at {
            lemma_tiles_sorted(vnodes, low, high, j, at);
        }
    }
}

/// The last vnode that starts by a timestamp.
proof fn lemma_last_started(vnodes: Seq<VNode>, timestamp: i64, end: int) -> (at: int)
    requires
        sorted_starts(vnodes),
        0 < end <= vnodes.len(),
        vnodes[0].time_start <= timestamp,
        forall|i: int| end <= i < vnodes.len() ==> (#[trigger] vnodes[i]).time_start > timestamp,
    ensures
        0 <= at < vnodes.len(),
        forall|i: int| 0 <= i <= at ==> (#[trigger] vnodes[i]).time_start <= timestamp,
        forall|i: int| at < i < vnodes.len() ==> (#[trigger] vnodes[i]).time_start > timestamp,
    decreases end,
{
    if vnodes[end - 1].time_start <= timestamp {
        assert forall|i: int| 0 <= i <= end - 1 implies (#[trigger] vnodes[i]).time_start
            <= timestamp by {
            assert(vnodes[i].time_start <= vnodes[end - 1].time_start);
        }
        end - 1
    } else {
        lemma_last_started(vnodes, timestamp, end - 1)
    }
}

/// Splitting a vnode keeps the cover without gap or overlap.
pub proof fn split_keeps_tiles(ring: RingView, at: int, split_point: i64, low: i64, high: i64)
    requires
        tiles(ring.vnodes, low, high),
        0 <= at < ring.vnodes.len(),
        ring.vnodes[at].time_start < split_point < ring.vnodes[at].time_end,
    ensures
        tiles(ring.split(at, split_point).vnodes, low, high),
{
    let before = ring.vnodes;
    let after = ring.split(at, split_point).vnodes;
    assert forall|i: int| 0 <= i < after.len() implies (#[trigger] after[i]).time_start
        <= after[i].time_end by {
        if i < at {
            assert(after[i] == before[i]);
        } else if i > at + 1 {
            assert(after[i] == before[i - 1]);
        }
    }
    assert forall|i: int, j: int| 0 <= i && j == i + 1 && j < after.len() implies (
    #[trigger] after[i]).time_end == (#[trigger] after[j]).time_start by {
        if j < at {
            assert(before[i].time_end == before[j].time_start);
        } else if j == at {
            assert(before[i].time_end == before[at].time_start);
        } else if i == at + 1 {
            assert(before[at].time_end == before[at + 1].time_start);
            assert(after[j] == before[at + 1]);
        } else if i > at + 1 {
            assert(before[i - 1].time_end == before[j - 1].time_start);
        }
    }
    if at == before.len() - 1 {
        assert(after.last() == after[at + 1]);
    } else {
        assert(after.last() == before.last());
    }
}

/// A split loses no record and shows none twice: what the old shard answers before
/// the split is what the two shards answer after it.
pub proof fn split_keeps_answers(
    shard: CoreView,
    id: usize,
    split_point: i64,
    p: spec_fn(Record) -> bool,
    t1: i64,
    t2: i64,
)
    requires
        shard.time_start < split_point < shard.time_end,
    ensures
        shard.answer(p, t1, t2).to_multiset() == (CoreView {
            time_end: split_point,
            ..shard
        }).answer(p, t1, t2).to_multiset().add(
            split_off(shard, id, split_point, shard.time_end).answer(p, t1, t2).to_multiset(),
        ),
{
    lemma_split_records(
        shard.run.records,
        within(p, later(t1, shard.time_start), earlier(t2, (shard.time_end - 1) as i64)),
        within(p, later(t1, shard.time_start), earlier(t2, (split_point - 1) as i64)),
        within(p, later(t1, split_point), earlier(t2, (shard.time_end - 1) as i64)),
        split_point,
    );
}

proof fn lemma_split_records(
    records: Seq<Record>,
    whole: spec_fn(Record) -> bool,
    left: spec_fn(Record) -> bool,
    right: spec_fn(Record) -> bool,
    split_point: i64,
)
    requires
        forall|r: Record|
            r.timestamp < split_point ==> #[trigger] left(r) == whole(r),
        forall|r: Record| r.timestamp >= split_point ==> !#[trigger] left(r),
        forall|r: Record| r.timestamp >= split_point ==> #[trigger] right(r) == whole(r),
    ensures
        records.filter(whole).to_multiset() == records.filter(left).to_multiset().add(
            records.filter(from_time(split_point)).filter(right).to_multiset(),
        ),
    decreases records.len(),
{
    broadcast use vstd::seq_lib::group_to_multiset_ensures;

    reveal(Seq::filter);
    if records.len() == 0 {
        assert(records.filter(whole).to_multiset() =~= records.filter(left).to_multiset().add(
            records.filter(from_time(split_point)).filter(right).to_multiset(),
        ));
    } else {
        let rest = records.drop_last();
        let last = records.last();
        lemma_split_records(rest, whole, left, right, split_point);
        assert(left(last) == (last.timestamp < split_point && whole(last)));
        let a = rest.filter(left);
        let moved = rest.filter(from_time(split_point));
        let b = moved.filter(right);
        if last.timestamp >= split_point {
            assert(right(last) == whole(last));
            assert(moved.push(last).drop_last() =~= moved);
            if whole(last) {
                assert(a.to_multiset().add(b.to_multiset()).insert(last) =~= a.to_multiset().add(
                    b.to_multiset().insert(last),
                ));
            }
        } else if whole(last) {
            assert(a.to_multiset().add(b.to_multiset()).insert(last) =~= a.to_multiset().insert(
                last,
            ).add(b.to_multiset()));
        }
    }
}

/// A position is that of a vnode whose range meets `[t1, t2]`.
spec fn met(vnodes: Seq<VNode>, t1: i64, t2: i64, at: usize) -> bool {
    at < vnodes.len() && t1 < vnodes[at as int].time_end && vnodes[at as int].time_start <= t2
}

proof fn lemma_meeting(vnodes: Seq<VNode>, t1: i64, t2: i64)
    requires
        vnodes.len() <= usize::MAX,
    ensures
        forall|k: int|
            0 <= k < meeting(vnodes, t1, t2).len() ==> met(
                vnodes,
                t1,
                t2,
                #[trigger] meeting(vnodes, t1, t2)[k],
            ),
        forall|i: int|
            0 <= i < vnodes.len() && t1 < vnodes[i].time_end && (#[trigger] vnodes[i]).time_start
                <= t2 ==> meeting(vnodes, t1, t2).contains(i as usize),
        forall|j: int, k: int|
            0 <= j < k < meeting(vnodes, t1, t2).len() ==> (#[trigger] meeting(
                vnodes,
                t1,
                t2,
            )[j]) < (#[trigger] meeting(vnodes, t1, t2)[k]),
    decreases vnodes.len(),
{
    if vnodes.len() > 0 {
        let rest = vnodes.drop_last();
        let before = meeting(rest, t1, t2);
        let all = meeting(vnodes, t1, t2);
        lemma_meeting(rest, t1, t2);
        assert forall|k: int| 0 <= k < all.len() implies met(vnodes, t1, t2, #[trigger] all[k]) by {
            if k < before.len() {
                assert(all[k] == before[k]);
                assert(met(rest, t1, t2, before[k]));
            }
        }
        assert forall|i: int|
            0 <= i < vnodes.len() && t1 < vnodes[i].time_end && (#[trigger] vnodes[i]).time_start
                <= t2 implies all.contains(i as usize) by {
            if i < rest.len() {
                assert(rest[i] == vnodes[i]);
                let k = choose|k: int| 0 <= k < before.len() && before[k] == i as usize;
                assert(all[k] == i as usize);
            } else {
                assert(all[all.len() - 1] == i as usize);
            }
        }
        assert forall|j: int, k: int| 0 <= j < k < all.len() implies (#[trigger] all[j]) < (
        #[trigger] all[k]) by {
            assert(all[j] == before[j]);
            assert(met(rest, t1, t2, before[j]));
            if k < before.len() {
                assert(all[k] == before[k]);
            }
        }
    }
}

/// A range of time meets every vnode that it shares a timestamp with.
pub proof fn shared_timestamp_is_met(vnodes: Seq<VNode>, t1: i64, t2: i64, i: int, timestamp: i64)
    requires
        vnodes.len() <= usize::MAX,
        0 <= i < vnodes.len(),
        t1 <= timestamp <= t2,
        vnodes[i].time_start <= timestamp < vnodes[i].time_end,
    ensures
        meeting(vnodes, t1, t2).contains(i as usize),
{
    lemma_meeting(vnodes, t1, t2);
}

/// A range of time meets no other vnode: with each vnode that it meets and that has a
/// timestamp at all, it shares one. The positions come in ascending order, each once.
pub proof fn met_vnodes_share_a_timestamp(vnodes: Seq<VNode>, t1: i64, t2: i64, k: int) -> (shared:
    i64)
    requires
        vnodes.len() <= usize::MAX,
        0 <= k < meeting(vnodes, t1, t2).len(),
        t1 <= t2,
    ensures
        0 <= meeting(vnodes, t1, t2)[k] < vnodes.len(),
        ({
            let vnode = vnodes[meeting(vnodes, t1, t2)[k] as int];
            vnode.time_start < vnode.time_end ==> {
                &&& t1 <= shared <= t2
                &&& vnode.time_start <= shared < vnode.time_end
            }
        }),
        forall|j: int|
            0 <= j < k ==> (#[trigger] meeting(vnodes, t1, t2)[j]) < meeting(vnodes, t1, t2)[k],
{
    lemma_meeting(vnodes, t1, t2);
    let at = meeting(vnodes, t1, t2)[k];
    assert(met(vnodes, t1, t2, at));
    let start = vnodes[at as int].time_start;
    if t1 >= start {
        t1
    } else {
        start
    }
}

/// The owner of a timestamp is met by every range that has the timestamp.
pub proof fn owner_is_met(vnodes: Seq<VNode>, t1: i64, t2: i64, timestamp: i64)
    requires
        vnodes.len() <= usize::MAX,
        t1 <= timestamp <= t2,
    ensures
        owner(vnodes, timestamp) matches Some(i) ==> meeting(vnodes, t1, t2).contains(i as usize),
{
    if let Some(i) = owner(vnodes, timestamp) {
        owner_has_the_timestamp(vnodes, timestamp);
        shared_timestamp_is_met(vnodes, t1, t2, i, timestamp);
    }
}

/// The owner of a timestamp contains it, and no vnode behind the owner starts by then.
pub proof fn owner_has_the_timestamp(vnodes: Seq<VNode>, timestamp: i64)
    ensures
        owner(vnodes, timestamp) matches Some(i) ==> {
            &&& 0 <= i < vnodes.len()
            &&& vnodes[i].time_start <= timestamp < vnodes[i].time_end
            &&& forall|j: int|
                i < j < vnodes.len() ==> (#[trigger] vnodes[j]).time_start > timestamp
        },
    decreases vnodes.len(),
{
    if vnodes.len() > 0 && vnodes.last().time_start > timestamp {
        let rest = vnodes.drop_last();
        owner_has_the_timestamp(rest, timestamp);
        if let Some(i) = owner(rest, timestamp) {
            assert forall|j: int| i < j < vnodes.len() implies (#[trigger] vnodes[j]).time_start
                > timestamp by {
                if j < rest.len() {
                    assert(rest[j].time_start > timestamp);
                }
            }
        }
    }
}

/// A vnode that contains a timestamp owns it, as long as no vnode behind it starts by
/// then.
pub proof fn containing_vnode_owns(vnodes: Seq<VNode>, timestamp: i64, i: int)
    requires
        0 <= i < vnodes.len(),
        vnodes[i].time_start <= timestamp < vnodes[i].time_end,
        forall|j: int| i < j < vnodes.len() ==> (#[trigger] vnodes[j]).time_start > timestamp,
    ensures
        owner(vnodes, timestamp) == Some(i),
    decreases vnodes.len(),
{
    if i < vnodes.len() - 1 {
        let rest = vnodes.drop_last();
        assert(vnodes[vnodes.len() - 1].time_start > timestamp);
        assert forall|j: int| i < j < rest.len() implies (#[trigger] rest[j]).time_start
            > timestamp by {
            assert(vnodes[j].time_start > timestamp);
        }
        containing_vnode_owns(rest, timestamp, i);
    }
}

/// The slices of a new ring are equal: all are as wide as the time divided by their
/// number, each begins where the one before it ends, and the last one ends with the
/// time.
pub proof fn slices_are_equal(count: nat, max_time: i64, i: int)
    requires
        0 <= i < count <= usize::MAX,
        max_time >= 0,
    ensures
        slice_node(count, max_time, i).core_id == i,
        slice_node(count, max_time, i).time_start == i * (max_time as int / count as int),
        i < count - 1 ==> slice_node(count, max_time, i).time_end == slice_node(
            count,
            max_time,
            i,
        ).time_start + max_time as int / count as int,
        i == count - 1 ==> slice_node(count, max_time, i).time_end == max_time,
{
    let slice = max_time as int / count as int;
    lemma_slice_fits(count, max_time, i);
    lemma_slice_fits(count, max_time, i + 1);
    assert((i + 1) * slice == i * slice + slice) by (nonlinear_arith);
}

/// Dropping the fraction moves a quotient toward zero by less than one.
pub proof fn truncation_drops_the_fraction(a: int, b: int)
    requires
        b > 0,
    ensures
        a >= 0 ==> truncated(a, b) * b <= a < truncated(a, b) * b + b,
        a < 0 ==> truncated(a, b) * b - b < a <= truncated(a, b) * b,
{
    let m = if a >= 0 {
        a
    } else {
        -a
    };
    let q = m / b;
    vstd::arithmetic::div_mod::lemma_fundamental_div_mod(m, b);
    vstd::arithmetic::div_mod::lemma_mod_bound(m, b);
    assert(q * b == b * q && (-q) * b == -(b * q)) by (nonlinear_arith);
}

/// A range of more than one timestamp is split inside: at the midpoint that is given
/// if that lies inside, else as close to it as can be; without one, in the middle.
pub proof fn splits_lie_inside(start: i64, end: i64, midpoint: Option<i64>)
    requires
        end - start > 1,
    ensures
        start < split_at(start, end, midpoint) < end,
        midpoint matches Some(m) ==> {
            &&& start < m < end ==> split_at(start, end, midpoint) == m
            &&& m <= start ==> split_at(start, end, midpoint) == start + 1
            &&& m >= end ==> split_at(start, end, midpoint) == end - 1
        },
        midpoint is None ==> {
            let left = split_at(start, end, midpoint) - start;
            let right = end - split_at(start, end, midpoint);
            -1 <= left - right <= 1
        },
{
    if midpoint is None {
        truncation_drops_the_fraction(start + end, 2);
    }
}

/// The steps of a range are all the multiples of the size, counted from its start, that
/// stay before its end, in order.
pub proof fn steps_stop_at_the_end(start: i64, end: i64, size: int, k: int)
    requires
        size > 0,
        k >= 0,
    ensures
        k < steps(start as int, end as int, size).len() <==> start + k * size < end,
        k < steps(start as int, end as int, size).len() ==> steps(
            start as int,
            end as int,
            size,
        )[k] == start + k * size,
{
    assert(k * size >= 0) by (nonlinear_arith)
        requires
            k >= 0,
            size > 0,
    ;
    if start < end {
        let n = end - start - 1;
        let q = n / size;
        vstd::arithmetic::div_mod::lemma_fundamental_div_mod(n, size);
        vstd::arithmetic::div_mod::lemma_mod_bound(n, size);
        assert(q >= 0 && (k <= q <==> k * size <= n)) by (nonlinear_arith)
            requires
                n == size * q + n % size,
                0 <= n % size < size,
                size > 0,
                n >= 0,
        ;
    }
}

/// A split touches nothing else. The vnodes before the one that is split stay, those
/// behind it move up by one, and no shard but its own changes. Of that only the end
/// moves. The new vnode leads to the new shard, and that holds the records of the old
/// one from the split point on, and no others, in their order.
pub proof fn split_touches_one_vnode(ring: RingView, at: int, split_point: i64)
    requires
        0 <= at < ring.vnodes.len(),
        ring.vnodes[at].core_id < ring.shards.len(),
        ring.shards.len() < usize::MAX,
    ensures
        ring.split(at, split_point).vnodes.len() == ring.vnodes.len() + 1,
        forall|i: int|
            0 <= i < at ==> #[trigger] ring.split(at, split_point).vnodes[i] == ring.vnodes[i],
        forall|i: int|
            at + 1 < i <= ring.vnodes.len() ==> #[trigger] ring.split(at, split_point).vnodes[i]
                == ring.vnodes[i - 1],
        ring.split(at, split_point).vnodes[at] == (VNode {
            time_end: split_point,
            ..ring.vnodes[at]
        }),
        ring.split(at, split_point).vnodes[at + 1] == (VNode {
            time_start: split_point,
            time_end: ring.vnodes[at].time_end,
            core_id: ring.shards.len() as usize,
        }),
        ring.split(at, split_point).shards.len() == ring.shards.len() + 1,
        forall|i: int|
            0 <= i < ring.shards.len() && i != ring.vnodes[at].core_id ==> #[trigger] ring.split(
                at,
                split_point,
            ).shards[i] == ring.shards[i],
        ring.split(at, split_point).shards[ring.vnodes[at].core_id as int] == (CoreView {
            time_end: split_point,
            ..ring.shards[ring.vnodes[at].core_id as int]
        }),
        ({
            let old_shard = ring.shards[ring.vnodes[at].core_id as int];
            let new_shard = ring.split(at, split_point).shards[ring.shards.len() as int];
            &&& new_shard.id == ring.shards.len()
            &&& new_shard.time_start == split_point
            &&& new_shard.time_end == ring.vnodes[at].time_end
            &&& new_shard.room == old_shard.room
            &&& new_shard.windows == Set::<i64>::empty()
            &&& new_shard.queries == 0
            &&& new_shard.run.oldest == 0
            &&& new_shard.run.records == old_shard.run.records.filter(
                |record: Record| record.timestamp >= split_point,
            )
        }),
        ring.split(at, split_point).shard_capacity == ring.shard_capacity,
{
    let after = ring.split(at, split_point);
    let p = |record: Record| record.timestamp >= split_point;
    assert(from_time(split_point) =~= p);
    assert forall|i: int| 0 <= i < at implies #[trigger] after.vnodes[i] == ring.vnodes[i] by {}
}

} // verus!
