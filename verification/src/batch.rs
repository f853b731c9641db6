//! Batches of entries for several partitions.

use crate::chiron::ChironStore;
use crate::log_entry::{entry_records, LogEntry, Record};
use crate::sorting::{
    is_stable_sort, key_is, lemma_filter_none, sorted_by_key, stable_sort, with_key, Keyed,
};
use crate::partition::ShardView;
use crate::store_effects::{admission_follows_the_records, new_shards_admit_new_hosts};
use crate::store_laws::{
    batch_brings_its_hosts, batch_keeps_hosts_apart, batch_keeps_store_sound,
    batch_with_room_loses_nothing, fitting_batch_is_kept, growth_keeps_everything,
    ids_are_positions, partitions_are_positions, sound, takes_batches,
};
use crate::store_model::{
    batch_drops_only_oldest, batch_moves_offsets, has_host, has_shard, holds_host, hosts_apart,
    lemma_position, lens, only_at, StoreView,
};
use crate::totals::sum;
use vstd::hash_map::StringHashMap;
use vstd::prelude::*;

verus! {

impl Keyed for (LogEntry, u32) {
    open spec fn sort_key(&self) -> int {
        self.1 as int
    }

    fn key(&self) -> (k: i64) {
        self.1 as i64
    }
}

/// Whether an item of a batch belongs to a partition.
pub open spec fn in_partition(partition: int) -> spec_fn((LogEntry, u32)) -> bool {
    |item: (LogEntry, u32)| item.1 == partition
}

/// The records of a batch that belong to a partition, in the order of the batch.
pub open spec fn records_of(batch: Seq<(LogEntry, u32)>, partition: int) -> Seq<Record> {
    batch.filter(in_partition(partition)).map_values(|item: (LogEntry, u32)| item.0@)
}

/// The store after the records of the partitions below `end` have entered it,
/// partition after partition in ascending order, those of one partition as one
/// batch in their order.
pub open spec fn ingest_below(store: StoreView, batch: Seq<(LogEntry, u32)>, end: nat) -> StoreView
    decreases end,
{
    if end == 0 {
        store
    } else {
        let last = (end - 1) as nat;
        ingest_below(store, batch, last).ingest_partition_batch(
            last as u32,
            records_of(batch, last as int),
        )
    }
}

/// The store after a batch has entered it.
pub open spec fn ingest_batch(store: StoreView, batch: Seq<(LogEntry, u32)>) -> StoreView {
    ingest_below(store, batch, 0x1_0000_0000)
}

/// When its turn comes, every partition of the batch has a shard or can get one,
/// with offsets left for its records, and the store has slots at all.
pub open spec fn admissible(store: StoreView, batch: Seq<(LogEntry, u32)>) -> bool {
    forall|partition: u32|
        #[trigger] records_of(batch, partition as int).len() > 0 ==> {
            let before = ingest_below(store, batch, partition as nat);
            &&& before.capacity > 0
            &&& before.reachable(partition)
            &&& before.next_of(partition) + records_of(batch, partition as int).len() <= u64::MAX
            &&& admits_all(before, partition, records_of(batch, partition as int))
        }
}

/// The records may enter the shard of a partition: no other shard holds records of
/// their hosts.
pub open spec fn admits_all(store: StoreView, partition: u32, records: Seq<Record>) -> bool {
    forall|k: int|
        0 <= k < records.len() ==> store.admits(partition, (#[trigger] records[k]).host)
}

/// Some item of the batch is for the partition and of the host.
pub open spec fn brings(batch: Seq<(LogEntry, u32)>, partition: int, host: Seq<char>) -> bool {
    exists|k: int|
        0 <= k < batch.len() && (#[trigger] batch[k]).1 == partition && batch[k].0@.host == host
}

/// The batch has the entries of each host in one partition, and no shard but that of
/// this partition holds records of the host.
pub open spec fn keeps_hosts_apart(store: StoreView, batch: Seq<(LogEntry, u32)>) -> bool {
    &&& forall|k: int|
        0 <= k < batch.len() ==> store.admits(
            (#[trigger] batch[k]).1,
            batch[k].0@.host,
        )
    &&& forall|k: int, l: int|
        0 <= k < batch.len() && 0 <= l < batch.len() && (#[trigger] batch[k]).0@.host == (
        #[trigger] batch[l]).0@.host ==> batch[k].1 == batch[l].1
}

/// Partitions without records leave the store as it is.
proof fn lemma_skip_partitions(store: StoreView, batch: Seq<(LogEntry, u32)>, from: nat, to: nat)
    requires
        from <= to,
        forall|p: int| from <= p < to ==> #[trigger] records_of(batch, p).len() == 0,
    ensures
        ingest_below(store, batch, to) == ingest_below(store, batch, from),
    decreases to,
{
    if from < to {
        lemma_skip_partitions(store, batch, from, (to - 1) as nat);
        assert(records_of(batch, to - 1).len() == 0);
    }
}

/// A partition that no item has, has no records.
proof fn lemma_no_records(batch: Seq<(LogEntry, u32)>, partition: int)
    requires
        forall|i: int| 0 <= i < batch.len() ==> (#[trigger] batch[i]).1 != partition,
    ensures
        records_of(batch, partition).len() == 0,
{
    let p = in_partition(partition);
    assert forall|i: int| 0 <= i < batch.len() implies !p(#[trigger] batch[i]) by {}
    lemma_filter_none(batch, p);
}

/// Sorting a batch by partition keeps the records of each partition in order.
proof fn lemma_sorted_records(batch: Seq<(LogEntry, u32)>, sorted: Seq<(LogEntry, u32)>, k: int)
    requires
        is_stable_sort(batch, sorted),
    ensures
        records_of(sorted, k) == records_of(batch, k),
{
    assert(in_partition(k) =~= key_is(k));
    assert(with_key(sorted, k) == with_key(batch, k));
}

/// What one more item adds to the records of a partition.
proof fn lemma_records_step(items: Seq<(LogEntry, u32)>, i: int, partition: int)
    requires
        0 <= i < items.len(),
    ensures
        records_of(items.take(i + 1), partition) == if items[i].1 == partition {
            records_of(items.take(i), partition).push(items[i].0@)
        } else {
            records_of(items.take(i), partition)
        },
{
    reveal(Seq::filter);
    let p = in_partition(partition);
    let f = |item: (LogEntry, u32)| item.0@;
    let more = items.take(i + 1);
    assert(more.drop_last() =~= items.take(i));
    assert(more.last() == items[i]);
    if p(items[i]) {
        assert(items.take(i).filter(p).push(items[i]).map_values(f) =~= items.take(i).filter(
            p,
        ).map_values(f).push(f(items[i])));
    }
}

/// Items behind the last one of a partition add nothing to its records.
proof fn lemma_records_prefix(items: Seq<(LogEntry, u32)>, i: int, partition: int)
    requires
        0 <= i <= items.len(),
        forall|j: int| i <= j < items.len() ==> (#[trigger] items[j]).1 != partition,
    ensures
        records_of(items.take(i), partition) == records_of(items, partition),
    decreases items.len() - i,
{
    if i < items.len() {
        lemma_records_step(items, i, partition);
        lemma_records_prefix(items, i + 1, partition);
    } else {
        assert(items.take(i) =~= items);
    }
}

/// Sorts a batch of entries by partition, keeping the order within each partition,
/// and ingests each partition's entries in a single batch. The batch is emptied.
pub fn ingest_batch_by_partition(store: &mut ChironStore, batch: &mut Vec<(LogEntry, u32)>)
    requires
        old(store).wf(),
        admissible(old(store)@, old(batch)@),
    ensures
        final(store).wf(),
        final(store)@ == ingest_batch(old(store)@, old(batch)@),
        final(batch)@.len() == 0,
        final(store)@.capacity == old(store)@.capacity,
        old(batch)@.len() > 0 || sum(lens(old(store)@.shards)) <= old(store)@.capacity ==> sum(
            lens(final(store)@.shards),
        ) <= final(store)@.capacity,
{
    let ghost start = store@;
    let ghost all = batch@;
    if batch.len() == 0 {
        proof {
            assert forall|p: int| 0 <= p < 0x1_0000_0000 implies #[trigger] records_of(
                all,
                p,
            ).len() == 0 by {
                lemma_no_records(all, p);
            }
            lemma_skip_partitions(start, all, 0, 0x1_0000_0000);
        }
        return ;
    }
    let mut taken: Vec<(LogEntry, u32)> = Vec::new();
    core::mem::swap(batch, &mut taken);
    let items: Vec<(LogEntry, u32)> = stable_sort(taken);
    let ghost sorted = items@;
    proof {
        broadcast use vstd::seq_lib::group_to_multiset_ensures;

        assert(sorted.len() == sorted.to_multiset().len());
        assert(all.len() == all.to_multiset().len());
        assert forall|p: int| #[trigger] records_of(sorted, p) == records_of(all, p) by {
            lemma_sorted_records(all, sorted, p);
        }
    }
    let mut current_partition: u32 = items[0].1;
    let mut partition_entries: Vec<LogEntry> = Vec::new();
    proof {
        assert forall|p: int| 0 <= p < current_partition implies #[trigger] records_of(
            all,
            p,
        ).len() == 0 by {
            assert forall|i: int| 0 <= i < sorted.len() implies (#[trigger] sorted[i]).1 != p by {
                assert(sorted[0].sort_key() <= sorted[i].sort_key());
            }
            lemma_no_records(sorted, p);
            assert(records_of(sorted, p) == records_of(all, p));
        }
        lemma_skip_partitions(start, all, 0, current_partition as nat);
        lemma_no_records(sorted.take(0), current_partition as int);
        assert(entry_records(partition_entries@) =~= records_of(
            sorted.take(0),
            current_partition as int,
        ));
    }
    for item in it: items
        invariant
            it.seq() == sorted,
            sorted.len() > 0,
            sorted_by_key(sorted),
            admissible(start, all),
            forall|p: int| #[trigger] records_of(sorted, p) == records_of(all, p),
            store.wf(),
            store@ == ingest_below(start, all, current_partition as nat),
            store@.capacity == start.capacity,
            it.index() == 0 ==> current_partition == sorted[0].1,
            it.index() > 0 ==> current_partition == sorted[it.index() - 1].1,
            it.index() > 0 ==> partition_entries@.len() > 0,
            entry_records(partition_entries@) == records_of(
                sorted.take(it.index() as int),
                current_partition as int,
            ),
    {
        let ghost i = it.index() as int;
        let (entry, partition): (LogEntry, u32) = item;
        assert(sorted[i] == (entry, partition));
        if partition != current_partition && partition_entries.len() > 0 {
            let ghost current = current_partition as int;
            let mut group: Vec<LogEntry> = Vec::new();
            core::mem::swap(&mut partition_entries, &mut group);
            proof {
                assert(sorted[i - 1].sort_key() <= sorted[i].sort_key());
                assert forall|j: int| i <= j < sorted.len() implies (#[trigger] sorted[j]).1
                    != current by {
                    assert(sorted[i].sort_key() <= sorted[j].sort_key());
                }
                lemma_records_prefix(sorted, i, current);
                assert(entry_records(group@) == records_of(all, current));
                assert(group@.len() == entry_records(group@).len());
                assert forall|k: int| 0 <= k < group@.len() implies store@.admits(
                    current_partition,
                    (#[trigger] group@[k])@.host,
                ) by {
                    assert(records_of(all, current)[k] == group@[k]@);
                }
            }
            let _ = store.ingest_partition_batch(current_partition, group);
            proof {
                assert forall|p: int| current + 1 <= p < partition implies #[trigger] records_of(
                    all,
                    p,
                ).len() == 0 by {
                    assert forall|j: int| 0 <= j < sorted.len() implies (#[trigger] sorted[j]).1
                        != p by {
                        if j < i {
                            assert(sorted[j].sort_key() <= sorted[i - 1].sort_key());
                        } else {
                            assert(sorted[i].sort_key() <= sorted[j].sort_key());
                        }
                    }
                    lemma_no_records(sorted, p);
                    assert(records_of(sorted, p) == records_of(all, p));
                }
                lemma_skip_partitions(start, all, (current + 1) as nat, partition as nat);
                assert forall|j: int| 0 <= j < sorted.take(i).len() implies (
                #[trigger] sorted.take(i)[j]).1 != partition by {
                    assert(sorted[j].sort_key() <= sorted[i - 1].sort_key());
                }
                lemma_no_records(sorted.take(i), partition as int);
                assert(entry_records(partition_entries@) =~= records_of(
                    sorted.take(i),
                    partition as int,
                ));
            }
            current_partition = partition;
        }
        let ghost before = partition_entries@;
        partition_entries.push(entry);
        proof {
            lemma_records_step(sorted, i, current_partition as int);
            assert(entry_records(partition_entries@) =~= entry_records(before).push(entry@));
        }
    }
    proof {
        let current = current_partition as int;
        assert(sorted.take(sorted.len() as int) =~= sorted);
        assert(entry_records(partition_entries@) == records_of(all, current));
        assert(partition_entries@.len() == entry_records(partition_entries@).len());
        assert(partition_entries@.len() > 0);
        assert forall|k: int| 0 <= k < partition_entries@.len() implies store@.admits(
            current_partition,
            (#[trigger] partition_entries@[k])@.host,
        ) by {
            assert(records_of(all, current)[k] == partition_entries@[k]@);
        }
        assert forall|p: int| current + 1 <= p < 0x1_0000_0000 implies #[trigger] records_of(
            all,
            p,
        ).len() == 0 by {
            assert forall|j: int| 0 <= j < sorted.len() implies (#[trigger] sorted[j]).1 != p by {
                assert(sorted[j].sort_key() <= sorted[sorted.len() - 1].sort_key());
            }
            lemma_no_records(sorted, p);
            assert(records_of(sorted, p) == records_of(all, p));
        }
        lemma_skip_partitions(start, all, (current + 1) as nat, 0x1_0000_0000);
    }
    if partition_entries.len() > 0 {
        let _ = store.ingest_partition_batch(current_partition, partition_entries);
    }
}

/// The hosts of the records of a partition are hosts of its items.
proof fn lemma_brings(batch: Seq<(LogEntry, u32)>, partition: int, host: Seq<char>)
    requires
        has_host(records_of(batch, partition), host),
    ensures
        brings(batch, partition, host),
{
    broadcast use vstd::seq_lib::group_filter_ensures;

    let items = batch.filter(in_partition(partition));
    let records = records_of(batch, partition);
    let k = choose|k: int| 0 <= k < records.len() && (#[trigger] records[k]).host == host;
    assert(items.contains(items[k]));
    batch.lemma_filter_contains_rev(in_partition(partition), items[k]);
    let m = choose|m: int| 0 <= m < batch.len() && batch[m] == items[k];
    assert(in_partition(partition)(items[k]));
    assert(batch[m].1 == partition && batch[m].0@.host == host);
}

/// Where a batch stands when the partitions below `end` are done: ids are still
/// positions, the shards that are still to come have offsets left, and every shard
/// has the hosts that it had or that its partition's items brought.
proof fn lemma_below(store: StoreView, batch: Seq<(LogEntry, u32)>, end: nat)
    requires
        takes_batches(store, batch.len()),
        batch.len() <= u64::MAX,
        end <= 0x1_0000_0000,
    ensures
        ingest_below(store, batch, end).capacity == store.capacity,
        ids_are_positions(ingest_below(store, batch, end)),
        forall|i: int|
            end <= i < ingest_below(store, batch, end).shards.len() ==> (
            #[trigger] ingest_below(store, batch, end).shards[i]).next() + batch.len() <= u64::MAX,
        forall|i: int, host: Seq<char>|
            0 <= i < ingest_below(store, batch, end).shards.len() && #[trigger] holds_host(
                ingest_below(store, batch, end).shards[i],
                host,
            ) ==> (i < store.shards.len() && holds_host(store.shards[i], host)) || brings(
                batch,
                i,
                host,
            ),
    decreases end,
{
    if end > 0 {
        let last = (end - 1) as nat;
        let id = last as u32;
        lemma_below(store, batch, last);
        let before = ingest_below(store, batch, last);
        let records = records_of(batch, last as int);
        let after = ingest_below(store, batch, end);
        partitions_are_positions(before, id, records);
        if records.len() > 0 {
            let grown = before.grow(id);
            batch_drops_only_oldest(grown, last as int, records);
            batch_moves_offsets(grown, last as int, records);
            growth_keeps_everything(before, id);
            assert forall|i: int| end <= i < after.shards.len() implies (
            #[trigger] after.shards[i]).next() + batch.len() <= u64::MAX by {
                if last >= before.shards.len() {
                    assert(!has_shard(before.shards, id));
                }
                assert(grown.shards[i] == before.shards[i]);
            }
            assert forall|i: int, host: Seq<char>|
                0 <= i < after.shards.len() && #[trigger] holds_host(
                    after.shards[i],
                    host,
                ) implies (i < store.shards.len() && holds_host(store.shards[i], host)) || brings(
                batch,
                i,
                host,
            ) by {
                batch_brings_its_hosts(grown, last as int, records, i, host);
                if holds_host(grown.shards[i], host) {
                    lemma_grown_host(before, id, i, host);
                } else {
                    lemma_brings(batch, i, host);
                }
            }
        }
    }
}

/// The hosts of the shards of a grown store are those of the store.
proof fn lemma_grown_host(store: StoreView, id: u32, i: int, host: Seq<char>)
    requires
        store.reachable(id),
        0 <= i < store.grow(id).shards.len(),
        holds_host(store.grow(id).shards[i], host),
    ensures
        i < store.shards.len(),
        store.grow(id).shards[i] == store.shards[i],
{
    growth_keeps_everything(store, id);
    let grown = store.grow(id).shards;
    if i >= store.shards.len() {
        assert(grown[i].records.len() == 0);
    } else {
        assert(store.shards =~= grown.take(store.shards.len() as int));
        assert(grown.take(store.shards.len() as int)[i] == grown[i]);
    }
}

/// When the turn of a partition comes, its records may enter its shard.
proof fn lemma_admits_below(store: StoreView, batch: Seq<(LogEntry, u32)>, partition: u32)
    requires
        takes_batches(store, batch.len()),
        batch.len() <= u64::MAX,
        keeps_hosts_apart(store, batch),
    ensures
        admits_all(
            ingest_below(store, batch, partition as nat),
            partition,
            records_of(batch, partition as int),
        ),
{
    let at = partition as int;
    let before = ingest_below(store, batch, partition as nat);
    let records = records_of(batch, at);
    lemma_below(store, batch, partition as nat);
    partitions_are_positions(before, partition, records);
    partitions_are_positions(store, partition, records);
    let grown = before.grow(partition);
    assert forall|k: int| 0 <= k < records.len() implies before.admits(
        partition,
        (#[trigger] records[k]).host,
    ) by {
        let host = records[k].host;
        lemma_brings(batch, at, host);
        let m = choose|m: int|
            0 <= m < batch.len() && (#[trigger] batch[m]).1 == at && batch[m].0@.host == host;
        assert(store.admits(batch[m].1, batch[m].0@.host));
        assert forall|i: int| 0 <= i < grown.shards.len() && i != at implies !(
        #[trigger] holds_host(grown.shards[i], host)) by {
            if holds_host(grown.shards[i], host) {
                lemma_grown_host(before, partition, i, host);
                if i < store.shards.len() && holds_host(store.shards[i], host) {
                    growth_keeps_everything(store, partition);
                    let wider = store.grow(partition).shards;
                    assert(store.shards =~= wider.take(store.shards.len() as int));
                    assert(wider[i] == store.shards[i]);
                    assert(holds_host(wider[i], host));
                } else {
                    let l = choose|l: int|
                        0 <= l < batch.len() && (#[trigger] batch[l]).1 == i && batch[l].0@.host
                            == host;
                    assert(batch[l].1 == batch[m].1);
                }
            }
        }
    }
}

/// A batch that has each host in one partition, and in that of the shard that holds
/// records of the host, leaves the hosts apart.
pub proof fn batches_keep_hosts_apart(store: StoreView, batch: Seq<(LogEntry, u32)>)
    requires
        takes_batches(store, batch.len()),
        batch.len() <= u64::MAX,
        keeps_hosts_apart(store, batch),
        hosts_apart(store.shards),
    ensures
        hosts_apart(ingest_batch(store, batch).shards),
{
    lemma_apart_below(store, batch, 0x1_0000_0000);
}

proof fn lemma_apart_below(store: StoreView, batch: Seq<(LogEntry, u32)>, end: nat)
    requires
        takes_batches(store, batch.len()),
        batch.len() <= u64::MAX,
        keeps_hosts_apart(store, batch),
        hosts_apart(store.shards),
        end <= 0x1_0000_0000,
    ensures
        hosts_apart(ingest_below(store, batch, end).shards),
    decreases end,
{
    if end > 0 {
        let last = (end - 1) as nat;
        let id = last as u32;
        let before = ingest_below(store, batch, last);
        let records = records_of(batch, last as int);
        lemma_apart_below(store, batch, last);
        lemma_below(store, batch, last);
        lemma_admits_below(store, batch, id);
        partitions_are_positions(before, id, records);
        growth_keeps_everything(before, id);
        let grown = before.grow(id);
        if records.len() > 0 {
            assert forall|k: int| 0 <= k < records.len() implies only_at(
                grown.shards,
                last as int,
                (#[trigger] records[k]).host,
            ) by {
                assert(before.admits(id, records[k].host));
            }
            batch_keeps_hosts_apart(grown, last as int, records);
        }
    }
}

/// Whether a batch has the entries of each host in one partition, and no shard but
/// that of this partition holds entries of the host.
pub fn batch_keeps_apart(store: &ChironStore, batch: &Vec<(LogEntry, u32)>) -> (apart: bool)
    requires
        store.wf(),
        store@.capacity > 0,
        ids_are_positions(store@),
    ensures
        apart == keeps_hosts_apart(store@, batch@),
{
    let mut partitions: StringHashMap<u32> = StringHashMap::new();
    let mut i: usize = 0;
    while i < batch.len()
        invariant
            store.wf(),
            store@.capacity > 0,
            ids_are_positions(store@),
            i <= batch@.len(),
            forall|k: int|
                0 <= k < i ==> partitions@.contains_key((#[trigger] batch@[k]).0@.host)
                    && partitions@[batch@[k].0@.host] == batch@[k].1,
            forall|k: int|
                0 <= k < i ==> store@.admits((#[trigger] batch@[k]).1, batch@[k].0@.host),
            forall|host: Seq<char>| #[trigger]
                partitions@.contains_key(host) ==> exists|k: int|
                    0 <= k < i && (#[trigger] batch@[k]).0@.host == host,
        decreases batch@.len() - i,
    {
        let partition: u32 = batch[i].1;
        let host: &str = batch[i].0.host_id.as_str();
        proof {
            partitions_are_positions(store@, partition, Seq::empty());
            assert(batch@[i as int].1 == partition && batch@[i as int].0@.host == host@);
        }
        let known: Option<u32> = match partitions.get(host) {
            Some(p) => Some(*p),
            None => None,
        };
        match known {
            Some(p) => {
                proof {
                    let k = choose|k: int| 0 <= k < i && (#[trigger] batch@[k]).0@.host == host@;
                    assert(batch@[k].1 == p);
                    assert(store@.admits(batch@[k].1, batch@[k].0@.host));
                }
                if p != partition {
                    return false;
                }
            },
            None => {
                if !store.admits_host(partition, host) {
                    return false;
                }
                partitions.insert(host.to_owned(), partition);
            },
        }
        i += 1;
    }
    true
}

/// Where the shards of a store have their positions as their ids, every batch that
/// keeps the hosts apart is admissible as long as no offset runs out, and the ids stay
/// positions.
pub proof fn batches_are_admissible(store: StoreView, batch: Seq<(LogEntry, u32)>)
    requires
        takes_batches(store, batch.len()),
        batch.len() <= u64::MAX,
        keeps_hosts_apart(store, batch),
    ensures
        admissible(store, batch),
        ids_are_positions(ingest_batch(store, batch)),
{
    assert forall|partition: u32| #[trigger]
        records_of(batch, partition as int).len() > 0 implies {
        let before = ingest_below(store, batch, partition as nat);
        &&& before.capacity > 0
        &&& before.reachable(partition)
        &&& before.next_of(partition) + records_of(batch, partition as int).len() <= u64::MAX
        &&& admits_all(before, partition, records_of(batch, partition as int))
    } by {
        broadcast use vstd::seq_lib::group_filter_ensures;

        let records = records_of(batch, partition as int);
        lemma_below(store, batch, partition as nat);
        lemma_admits_below(store, batch, partition);
        let before = ingest_below(store, batch, partition as nat);
        partitions_are_positions(before, partition, records);
        assert(batch.filter(in_partition(partition as int)).len() <= batch.len());
        let grown = before.grow(partition);
        let at = partition as int;
        if partition < before.shards.len() {
            assert(before.shards[at].id == partition);
            assert(grown.shards[at] == before.shards[at]);
        } else {
            assert(grown.shards[at].records.len() == 0);
        }
    }
    lemma_below(store, batch, 0x1_0000_0000);
}

proof fn lemma_sound_below(store: StoreView, batch: Seq<(LogEntry, u32)>, end: nat)
    requires
        sound(store),
        takes_batches(store, batch.len()),
        batch.len() <= u64::MAX,
        end <= 0x1_0000_0000,
    ensures
        sound(ingest_below(store, batch, end)),
    decreases end,
{
    broadcast use vstd::seq_lib::group_filter_ensures;

    if end > 0 {
        let last = (end - 1) as nat;
        let before = ingest_below(store, batch, last);
        let records = records_of(batch, last as int);
        lemma_sound_below(store, batch, last);
        lemma_below(store, batch, last);
        partitions_are_positions(before, last as u32, records);
        batch_keeps_store_sound(before, last as u32, records);
    }
}

/// A batch for several partitions, however long it is, leaves a sound store sound.
pub proof fn batches_keep_store_sound(store: StoreView, batch: Seq<(LogEntry, u32)>)
    requires
        sound(store),
        takes_batches(store, batch.len()),
        batch.len() <= u64::MAX,
    ensures
        sound(ingest_batch(store, batch)),
{
    lemma_sound_below(store, batch, 0x1_0000_0000);
}

/// When the turn of a partition is over, its records, if they fit the capacity, are the
/// newest of its shard, in the order of the batch. Only the partitions after it can
/// displace any of them.
pub proof fn partitions_keep_what_fits(
    store: StoreView,
    batch: Seq<(LogEntry, u32)>,
    partition: u32,
)
    requires
        sound(store),
        takes_batches(store, batch.len()),
        batch.len() <= u64::MAX,
        0 < records_of(batch, partition as int).len() <= store.capacity,
    ensures
        ({
            let records = records_of(batch, partition as int);
            let held = records_at(
                ingest_below(store, batch, (partition + 1) as nat).shards,
                partition as int,
            );
            &&& records.len() <= held.len()
            &&& held.skip(held.len() - records.len()) == records
        }),
{
    let before = ingest_below(store, batch, partition as nat);
    let records = records_of(batch, partition as int);
    lemma_sound_below(store, batch, partition as nat);
    lemma_below(store, batch, partition as nat);
    partitions_are_positions(before, partition, records);
    growth_keeps_everything(before, partition);
    let grown = before.grow(partition);
    lemma_position(grown.shards, partition);
    fitting_batch_is_kept(grown, partition as int, records);
    assert(ingest_below(store, batch, (partition + 1) as nat) == grown.ingest_all_at(
        partition as int,
        records,
    ));
}

/// Whether an item of a batch belongs to a partition below `end`.
spec fn below(end: int) -> spec_fn((LogEntry, u32)) -> bool {
    |item: (LogEntry, u32)| item.1 < end
}

/// The items below one partition more are those below it and its own.
proof fn lemma_count_below(batch: Seq<(LogEntry, u32)>, end: int)
    ensures
        batch.filter(below(end + 1)).len() == batch.filter(below(end)).len() + records_of(
            batch,
            end,
        ).len(),
    decreases batch.len(),
{
    reveal(Seq::filter);
    if batch.len() > 0 {
        lemma_count_below(batch.drop_last(), end);
    }
}

/// The live records of a shard that may not be there yet.
pub open spec fn records_at(shards: Seq<ShardView>, at: int) -> Seq<Record> {
    if 0 <= at < shards.len() {
        shards[at].records
    } else {
        Seq::empty()
    }
}

/// With room for the whole batch, the partitions below `end` have their records
/// and the others are as they were.
proof fn lemma_room_below(store: StoreView, batch: Seq<(LogEntry, u32)>, end: nat)
    requires
        takes_batches(store, batch.len()),
        store.live + batch.len() <= store.capacity,
        batch.len() <= u64::MAX,
        end <= 0x1_0000_0000,
    ensures
        ingest_below(store, batch, end).live == store.live + batch.filter(
            below(end as int),
        ).len(),
        forall|p: int|
            #![trigger records_at(ingest_below(store, batch, end).shards, p)]
            0 <= p < 0x1_0000_0000 ==> records_at(ingest_below(store, batch, end).shards, p)
                == if p < end {
                records_at(store.shards, p) + records_of(batch, p)
            } else {
                records_at(store.shards, p)
            },
    decreases end,
{
    broadcast use vstd::seq_lib::group_filter_ensures;

    if end == 0 {
        assert forall|i: int| 0 <= i < batch.len() implies !below(0)(#[trigger] batch[i]) by {}
        lemma_filter_none(batch, below(0));
    } else {
        let last = (end - 1) as nat;
        let id = last as u32;
        let at = last as int;
        lemma_room_below(store, batch, last);
        lemma_below(store, batch, last);
        lemma_count_below(batch, at);
        let before = ingest_below(store, batch, last);
        let records = records_of(batch, at);
        let after = ingest_below(store, batch, end);
        assert(batch.filter(below(end as int)).len() <= batch.len());
        if records.len() > 0 {
            partitions_are_positions(before, id, records);
            let grown = before.grow(id);
            assert(grown.live == before.live && grown.capacity == before.capacity);
            growth_keeps_everything(before, id);
            lemma_position(grown.shards, id);
            batch_with_room_loses_nothing(grown, at, records);
            assert forall|p: int|
                #![trigger records_at(after.shards, p)]
                0 <= p < 0x1_0000_0000 implies records_at(after.shards, p) == if p == at {
                records_at(before.shards, p) + records
            } else {
                records_at(before.shards, p)
            } by {
                if p < before.shards.len() {
                    assert(grown.shards[p] == before.shards[p]);
                } else if p < grown.shards.len() {
                    assert(grown.shards[p].records.len() == 0);
                    assert(grown.shards[p].records =~= Seq::empty());
                }
            }
        }
        assert forall|p: int|
            #![trigger records_at(after.shards, p)]
            0 <= p < 0x1_0000_0000 implies records_at(after.shards, p) == if p < end {
            records_at(store.shards, p) + records_of(batch, p)
        } else {
            records_at(store.shards, p)
        } by {
            assert(records_at(before.shards, p) == if p < last {
                records_at(store.shards, p) + records_of(batch, p)
            } else {
                records_at(store.shards, p)
            });
            if records.len() == 0 && p == at {
                assert(records_at(store.shards, p) + records =~= records_at(store.shards, p));
            }
        }
    }
}

/// Where there is room for a whole batch, every record comes to stand in the shard
/// of its partition, behind what the shard holds and in the order of the batch, and
/// nothing is lost.
pub proof fn batch_keeps_order_within_partitions(
    store: StoreView,
    batch: Seq<(LogEntry, u32)>,
    partition: u32,
)
    requires
        takes_batches(store, batch.len()),
        store.live + batch.len() <= store.capacity,
        batch.len() <= u64::MAX,
    ensures
        records_at(ingest_batch(store, batch).shards, partition as int) == records_at(
            store.shards,
            partition as int,
        ) + records_of(batch, partition as int),
        ingest_batch(store, batch).live == store.live + batch.len(),
{
    lemma_room_below(store, batch, 0x1_0000_0000);
    lemma_all_below(batch);
}

proof fn lemma_all_below(batch: Seq<(LogEntry, u32)>)
    ensures
        batch.filter(below(0x1_0000_0000)).len() == batch.len(),
    decreases batch.len(),
{
    reveal(Seq::filter);
    if batch.len() > 0 {
        lemma_all_below(batch.drop_last());
    }
}

/// Hosts stay apart exactly if every host of the batch has its entries in one partition,
/// and every record of the host that the store has lies in the shard of that partition.
pub proof fn hosts_have_one_partition(store: StoreView, batch: Seq<(LogEntry, u32)>)
    requires
        store.shards.len() <= 0x1_0000_0000,
        forall|i: int| 0 <= i < store.shards.len() ==> (#[trigger] store.shards[i]).id == i,
    ensures
        keeps_hosts_apart(store, batch) <==> {
            &&& forall|k: int, i: int, l: int|
                0 <= k < batch.len() && 0 <= i < store.shards.len() && 0 <= l
                    < store.shards[i].records.len() && (#[trigger] batch[k]).0@.host == (
                #[trigger] store.shards[i].records[l]).host ==> batch[k].1 == i
            &&& forall|k: int, l: int|
                0 <= k < batch.len() && 0 <= l < batch.len() && (#[trigger] batch[k]).0@.host == (
                #[trigger] batch[l]).0@.host ==> batch[k].1 == batch[l].1
        },
{
    assert forall|k: int| 0 <= k < batch.len() implies (store.admits(
        (#[trigger] batch[k]).1,
        batch[k].0@.host,
    ) <==> forall|i: int, l: int|
        0 <= i < store.shards.len() && 0 <= l < store.shards[i].records.len() && batch[k].0@.host
            == (#[trigger] store.shards[i].records[l]).host ==> batch[k].1 == i) by {
        let id = batch[k].1;
        let host = batch[k].0@.host;
        assert forall|j: int| 0 <= j < store.shards.len() && j != id implies (
        #[trigger] store.shards[j]).id != id by {}
        if id < store.shards.len() {
            assert(store.shards[id as int].id == id);
            admission_follows_the_records(store, id, id as int, host);
        } else {
            new_shards_admit_new_hosts(store, id, host);
        }
    }
}

/// The records of a batch for a partition are those of its items for that partition, in
/// the order of the batch.
pub proof fn partitions_get_their_items(batch: Seq<(LogEntry, u32)>, partition: int)
    ensures
        records_of(batch, partition) == batch.filter(
            |item: (LogEntry, u32)| item.1 == partition,
        ).map_values(|item: (LogEntry, u32)| item.0@),
{
    let p = |item: (LogEntry, u32)| item.1 == partition;
    assert(in_partition(partition) =~= p);
}

/// A batch enters partition by partition in ascending order: the items of its lowest
/// partition first, in their order and as one batch, then those of the others.
pub proof fn lowest_partition_enters_first(
    store: StoreView,
    first: Seq<(LogEntry, u32)>,
    others: Seq<(LogEntry, u32)>,
    partition: u32,
)
    requires
        forall|i: int| 0 <= i < first.len() ==> (#[trigger] first[i]).1 == partition,
        forall|i: int| 0 <= i < others.len() ==> (#[trigger] others[i]).1 > partition,
    ensures
        ingest_batch(store, first + others) == ingest_batch(
            store.ingest_partition_batch(
                partition,
                first.map_values(|item: (LogEntry, u32)| item.0@),
            ),
            others,
        ),
        ingest_batch(store, Seq::empty()) == store,
{
    let batch = first + others;
    let low = partition as nat;
    let records = first.map_values(|item: (LogEntry, u32)| item.0@);
    assert forall|p: int| 0 <= p < low implies #[trigger] records_of(batch, p).len() == 0 by {
        lemma_no_records(batch, p);
    }
    assert forall|p: int| 0 <= p < low + 1 implies #[trigger] records_of(others, p).len() == 0 by {
        lemma_no_records(others, p);
    }
    assert forall|p: int| 0 <= p < 0x1_0000_0000 implies #[trigger] records_of(
        Seq::<(LogEntry, u32)>::empty(),
        p,
    ).len() == 0 by {
        lemma_no_records(Seq::empty(), p);
    }
    lemma_skip_partitions(store, Seq::empty(), 0, 0x1_0000_0000);
    lemma_skip_partitions(store, batch, 0, low);
    let step = store.ingest_partition_batch(partition, records);
    lemma_skip_partitions(step, others, 0, low + 1);
    assert(records_of(batch, low as int) == records) by {
        let p = in_partition(low as int);
        Seq::filter_distributes_over_add(first, others, p);
        lemma_no_records(others, low as int);
        assert(others.filter(p) =~= Seq::empty());
        lemma_all_pass(first, p);
        assert(batch.filter(p) =~= first);
    }
    lemma_same_from(store, step, first, others, low + 1, 0x1_0000_0000);
}

/// Where every item passes, filtering changes nothing.
proof fn lemma_all_pass(items: Seq<(LogEntry, u32)>, p: spec_fn((LogEntry, u32)) -> bool)
    requires
        forall|i: int| 0 <= i < items.len() ==> p(#[trigger] items[i]),
    ensures
        items.filter(p) == items,
    decreases items.len(),
{
    reveal(Seq::filter);
    if items.len() > 0 {
        let rest = items.drop_last();
        assert forall|i: int| 0 <= i < rest.len() implies p(#[trigger] rest[i]) by {
            assert(p(items[i]));
        }
        lemma_all_pass(rest, p);
        assert(p(items[items.len() - 1]));
        assert(rest.push(items.last()) =~= items);
    }
}

/// From the partition on at which two batches leave the same store, they have the same
/// effect if they agree on what is behind.
proof fn lemma_same_from(
    store: StoreView,
    step: StoreView,
    first: Seq<(LogEntry, u32)>,
    others: Seq<(LogEntry, u32)>,
    from: nat,
    to: nat,
)
    requires
        from <= to,
        forall|i: int| 0 <= i < first.len() ==> (#[trigger] first[i]).1 < from,
        ingest_below(store, first + others, from) == ingest_below(step, others, from),
    ensures
        ingest_below(store, first + others, to) == ingest_below(step, others, to),
    decreases to,
{
    if from < to {
        let last = (to - 1) as nat;
        lemma_same_from(store, step, first, others, from, last);
        let p = in_partition(last as int);
        Seq::filter_distributes_over_add(first, others, p);
        lemma_no_records(first, last as int);
        assert(first.filter(p) =~= Seq::empty());
        assert((first + others).filter(p) =~= others.filter(p));
    }
}

/// How the items of different partitions are mixed in a batch makes no difference, as long
/// as those of each partition keep their order.
pub proof fn partitions_may_be_mixed(
    store: StoreView,
    a: Seq<(LogEntry, u32)>,
    b: Seq<(LogEntry, u32)>,
)
    requires
        forall|partition: int| #[trigger] records_of(a, partition) == records_of(b, partition),
    ensures
        ingest_batch(store, a) == ingest_batch(store, b),
{
    lemma_mixed_below(store, a, b, 0x1_0000_0000);
}

proof fn lemma_mixed_below(
    store: StoreView,
    a: Seq<(LogEntry, u32)>,
    b: Seq<(LogEntry, u32)>,
    end: nat,
)
    requires
        forall|partition: int| #[trigger] records_of(a, partition) == records_of(b, partition),
    ensures
        ingest_below(store, a, end) == ingest_below(store, b, end),
    decreases end,
{
    if end > 0 {
        lemma_mixed_below(store, a, b, (end - 1) as nat);
        assert(records_of(a, end - 1) == records_of(b, end - 1));
    }
}

} // verus!
