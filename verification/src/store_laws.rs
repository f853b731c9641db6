//! Laws of the store: what holds of every sequence of operations.

use crate::codec_laws::encodable_topics;
use crate::kafka_offsets::{apply_topics, distinct, offset_map, TopicView};
use crate::log_entry::Record;
use crate::offsets::{both, has, within, Dimension};
use crate::partition::ShardView;
use crate::routing::{partition_in_range, partition_of};
use crate::snapshot::{decode_snapshot, encode_snapshot, image_capacities, ShardImage};
use crate::snapshot_laws::{encodable_shards, listed_offsets_round_trip, snapshot_round_trip};
use crate::store_model::{
    all_records, any_live, batch_drops_only_oldest, batch_moves_offsets, batch_of_one, capacities,
    fresh_shards, fullest, has_host, has_shard, holds_host, hosts_apart, id_is, images, is_first,
    lemma_evict, lemma_first_piece, lemma_fullest, lemma_no_records, lemma_position,
    lemma_trimmed, lens, only_at, position, reserve_all_drops_only_oldest,
    reserve_drops_only_oldest, restorable, restored_views, restores, sorted_by_id, trimmed,
    StoreView,
};
use crate::sorting::lemma_filter_none;
use crate::totals::{
    lemma_sum_bounds, lemma_sum_concat, lemma_sum_repeated, lemma_sum_update, lemma_sum_zero, sum,
};
use vstd::prelude::*;

verus! {

/// The number of oldest records that a shard must give up so that `count` more
/// slots can be taken.
pub open spec fn overflow(store: StoreView, count: nat) -> nat {
    if store.live + count <= store.capacity {
        0
    } else {
        (store.live + count - store.capacity) as nat
    }
}

/// Taking a slot never leaves more slots taken than there are.
pub proof fn capacity_is_never_exceeded(store: StoreView, target: int)
    requires
        store.capacity > 0,
        0 <= target < store.shards.len(),
    ensures
        0 < store.reserve(target).live <= store.capacity,
    decreases store.live,
{
    if store.live >= store.capacity {
        lemma_fullest(store.shards);
        if store.shards[target].records.len() > 0 {
            capacity_is_never_exceeded(store.shed(target), target);
        } else if any_live(store.shards) {
            capacity_is_never_exceeded(store.shed(fullest(store.shards)), target);
        }
    }
}

/// However long a batch is, afterwards no more slots are taken than there are, and of
/// an accounted store the shards hold no more records than that together.
pub proof fn capacity_is_never_exceeded_by_a_batch(
    store: StoreView,
    target: int,
    records: Seq<Record>,
)
    requires
        store.capacity > 0,
        0 <= target < store.shards.len(),
        records.len() > 0,
    ensures
        0 < store.ingest_all_at(target, records).live <= store.capacity,
        store.accounted() ==> sum(lens(store.ingest_all_at(target, records).shards))
            <= store.capacity,
    decreases records.len(),
{
    if records.len() <= store.capacity {
        let before = (records.len() - 1) as nat;
        reserve_all_drops_only_oldest(store, target, before);
        capacity_is_never_exceeded(store.reserve_all(target, before), target);
    } else {
        lemma_first_piece(store, target, records);
        let piece = store.ingest_at_once(target, records.take(store.capacity as int));
        capacity_is_never_exceeded_by_a_batch(
            piece,
            target,
            records.skip(store.capacity as int),
        );
    }
    if store.accounted() {
        batch_keeps_account(store, target, records);
    }
}

proof fn lemma_shed_lens(store: StoreView, at: int)
    requires
        0 <= at < store.shards.len(),
        store.shards[at].records.len() > 0,
    ensures
        sum(lens(store.shed(at).shards)) == sum(lens(store.shards)) - 1,
{
    let len = store.shards[at].records.len();
    assert(lens(store.shed(at).shards) =~= lens(store.shards).update(at, (len - 1) as nat));
    lemma_sum_update(lens(store.shards), at, (len - 1) as nat);
}

/// What taking a slot does while `pending` slots, fewer than there are, are taken for
/// records that are not appended yet: the account stays, and what must go goes from the
/// target shard as long as it has a record, and only then from the others.
proof fn lemma_reserve_effect(store: StoreView, target: int, pending: nat)
    requires
        store.capacity > pending,
        0 <= target < store.shards.len(),
        store.live == sum(lens(store.shards)) + pending,
    ensures
        store.reserve(target).live == sum(lens(store.reserve(target).shards)) + pending + 1,
        store.reserve(target).live == store.live + 1 - overflow(store, 1),
        store.reserve(target).shards[target] == store.shards[target].evict(overflow(store, 1)),
        overflow(store, 1) <= store.shards[target].records.len() ==> forall|i: int|
            0 <= i < store.shards.len() && i != target ==> #[trigger] store.reserve(
                target,
            ).shards[i] == store.shards[i],
    decreases store.live,
{
    let shard = store.shards[target];
    lemma_evict(shard, 0, 0);
    if store.live >= store.capacity {
        let gone = overflow(store, 1);
        lemma_fullest(store.shards);
        if shard.records.len() > 0 {
            let step = store.shed(target);
            lemma_shed_lens(store, target);
            lemma_reserve_effect(step, target, pending);
            lemma_evict(shard, 1, (gone - 1) as nat);
        } else if any_live(store.shards) {
            let at = fullest(store.shards);
            let step = store.shed(at);
            lemma_shed_lens(store, at);
            lemma_reserve_effect(step, target, pending);
            assert(shard.evict((gone - 1) as nat) =~= shard.evict(gone));
        } else {
            assert forall|i: int| 0 <= i < lens(store.shards).len() implies #[trigger] lens(
                store.shards,
            )[i] == 0 by {
                assert(store.shards[i].records.len() == 0);
            }
            lemma_sum_zero(lens(store.shards));
        }
    }
}

/// The same of several slots that are taken one after the other.
proof fn lemma_reserve_all_effect(store: StoreView, target: int, count: nat)
    requires
        0 < count <= store.capacity,
        0 <= target < store.shards.len(),
        store.accounted(),
    ensures
        store.reserve_all(target, count).live == sum(
            lens(store.reserve_all(target, count).shards),
        ) + count,
        store.reserve_all(target, count).live == store.live + count - overflow(store, count),
        store.reserve_all(target, count).shards[target] == store.shards[target].evict(
            overflow(store, count),
        ),
        overflow(store, count) <= store.shards[target].records.len() ==> forall|i: int|
            0 <= i < store.shards.len() && i != target ==> #[trigger] store.reserve_all(
                target,
                count,
            ).shards[i] == store.shards[i],
    decreases count,
{
    let fewer = (count - 1) as nat;
    let before = store.reserve_all(target, fewer);
    reserve_all_drops_only_oldest(store, target, fewer);
    if fewer > 0 {
        lemma_reserve_all_effect(store, target, fewer);
        lemma_evict(store.shards[target], overflow(store, fewer), overflow(before, 1));
    }
    lemma_reserve_effect(before, target, fewer);
}

proof fn lemma_append_lens(store: StoreView, target: int, records: Seq<Record>)
    requires
        0 <= target < store.shards.len(),
    ensures
        sum(lens(store.append(target, records).shards)) == sum(lens(store.shards)) + records.len(),
{
    let len = store.shards[target].records.len() + records.len();
    assert(lens(store.append(target, records).shards) =~= lens(store.shards).update(target, len));
    lemma_sum_update(lens(store.shards), target, len);
}

/// The store counts what it holds: after a record has entered an accounted store,
/// the taken slots are again exactly those of the live records, and there are no
/// more of them than the capacity.
pub proof fn ingest_keeps_account(store: StoreView, target: int, record: Record)
    requires
        store.capacity > 0,
        0 <= target < store.shards.len(),
        store.accounted(),
    ensures
        store.ingest_at(target, record).accounted(),
        store.ingest_at(target, record).live <= store.capacity,
{
    capacity_is_never_exceeded(store, target);
    lemma_reserve_effect(store, target, 0);
    reserve_drops_only_oldest(store, target);
    lemma_append_lens(store.reserve(target), target, seq![record]);
}

/// The same holds of every batch, however long it is.
pub proof fn batch_keeps_account(store: StoreView, target: int, records: Seq<Record>)
    requires
        store.capacity > 0,
        0 <= target < store.shards.len(),
        store.accounted(),
    ensures
        store.ingest_all_at(target, records).accounted(),
        records.len() > 0 ==> store.ingest_all_at(target, records).live <= store.capacity,
    decreases records.len(),
{
    if records.len() == 0 {
        assert(records =~= Seq::empty());
        lemma_no_records(store, target);
    } else if records.len() <= store.capacity {
        lemma_reserve_all_effect(store, target, records.len());
        reserve_all_drops_only_oldest(store, target, records.len());
        lemma_append_lens(store.reserve_all(target, records.len()), target, records);
    } else {
        lemma_first_piece(store, target, records);
        let first = records.take(store.capacity as int);
        batch_keeps_account(store, target, first);
        batch_keeps_account(
            store.ingest_all_at(target, first),
            target,
            records.skip(store.capacity as int),
        );
    }
}

/// Entries are only ever exchanged for newer ones: a record or a batch of records
/// takes as many more slots as there are free, up to their number, and a store never
/// gets shorter.
pub proof fn len_never_decreases(store: StoreView, target: int, records: Seq<Record>)
    requires
        store.capacity > 0,
        0 <= target < store.shards.len(),
        store.accounted(),
        store.live <= store.capacity,
    ensures
        store.ingest_all_at(target, records).live == if store.live + records.len()
            <= store.capacity {
            store.live + records.len()
        } else {
            store.capacity
        },
        store.live <= store.ingest_all_at(target, records).live,
        records.len() == 1 ==> store.live <= store.ingest_at(target, records[0]).live,
    decreases records.len(),
{
    if records.len() == 0 {
        assert(records =~= Seq::empty());
        lemma_no_records(store, target);
    } else if records.len() <= store.capacity {
        lemma_reserve_all_effect(store, target, records.len());
    } else {
        lemma_first_piece(store, target, records);
        let first = records.take(store.capacity as int);
        let rest = records.skip(store.capacity as int);
        let piece = store.ingest_all_at(target, first);
        batch_keeps_account(store, target, first);
        len_never_decreases(store, target, first);
        len_never_decreases(piece, target, rest);
    }
    if records.len() == 1 {
        assert(records =~= seq![records[0]]);
        batch_of_one(store, target, records[0]);
    }
}

/// A new store is accounted and routed, and no host is in two of its shards.
pub proof fn new_store_is_accounted(capacity: usize, shard_count: nat)
    requires
        shard_count > 0,
    ensures
        StoreView::with_shards(capacity, shard_count).accounted(),
        StoreView::with_shards(capacity, shard_count).routed(),
        hosts_apart(StoreView::with_shards(capacity, shard_count).shards),
{
    let store = StoreView::with_shards(capacity, shard_count);
    lemma_sum_zero(lens(store.shards));
}

/// Host isolation: while the shard that is written to can pay for the new record
/// with its own oldest records, it alone pays, with no more than it must, and no
/// other shard changes.
pub proof fn hot_shard_pays(store: StoreView, target: int)
    requires
        store.capacity > 0,
        0 <= target < store.shards.len(),
        overflow(store, 1) <= store.shards[target].records.len(),
    ensures
        store.reserve(target).shards == store.shards.update(
            target,
            store.shards[target].evict(overflow(store, 1)),
        ),
        store.reserve(target).live == store.live + 1 - overflow(store, 1),
    decreases store.live,
{
    lemma_evict(store.shards[target], 0, 0);
    if store.live < store.capacity {
        assert(store.reserve(target).shards =~= store.shards.update(
            target,
            store.shards[target].evict(0),
        ));
    } else {
        let step = store.shed(target);
        let rest = overflow(step, 1);
        hot_shard_pays(step, target);
        lemma_evict(store.shards[target], 1, rest);
        assert(step.shards.update(target, step.shards[target].evict(rest))
            =~= store.shards.update(target, store.shards[target].evict(overflow(store, 1))));
    }
}

/// The fallback: where a full store is written to at a shard that has nothing to give
/// up, the fullest shard gives up its oldest record, and no other shard changes.
pub proof fn fullest_shard_gives_way(store: StoreView, target: int)
    requires
        store.capacity > 0,
        store.live == store.capacity,
        0 <= target < store.shards.len(),
        store.shards[target].records.len() == 0,
        any_live(store.shards),
    ensures
        store.reserve(target).shards == store.shards.update(
            fullest(store.shards),
            store.shards[fullest(store.shards)].evict(1),
        ),
        store.reserve(target).live == store.capacity,
        fullest(store.shards) != target,
        forall|i: int|
            0 <= i < store.shards.len() ==> (#[trigger] store.shards[i]).records.len()
                <= store.shards[fullest(store.shards)].records.len(),
{
    lemma_fullest(store.shards);
    let step = store.shed(fullest(store.shards));
    assert(step.reserve(target) == StoreView { live: step.live + 1, ..step });
}

/// A batch that fits the capacity is kept whole: afterwards its records are the newest
/// of its shard, in their order. As many earlier records are gone as there were slots
/// missing, oldest first: from the batch's own shard as long as that has an earlier
/// record, and only then from the others.
pub proof fn fitting_batch_is_kept(store: StoreView, target: int, records: Seq<Record>)
    requires
        0 < records.len() <= store.capacity,
        0 <= target < store.shards.len(),
        store.accounted(),
    ensures
        ({
            let after = store.ingest_all_at(target, records);
            let shard = store.shards[target];
            let gone = overflow(store, records.len());
            &&& after == store.reserve_all(target, records.len()).append(target, records)
            &&& after.shards[target] == shard.evict(gone).push_all(records)
            &&& records.len() <= after.shards[target].records.len()
            &&& after.shards[target].records.skip(
                after.shards[target].records.len() - records.len(),
            ) == records
            &&& after.live == sum(lens(after.shards)) == store.live + records.len() - gone
            &&& after.live == if store.live + records.len() <= store.capacity {
                store.live + records.len()
            } else {
                store.capacity
            }
            &&& after.shards.len() == store.shards.len()
            &&& forall|i: int|
                0 <= i < store.shards.len() && i != target ==> trimmed(
                    store.shards[i],
                    #[trigger] after.shards[i],
                )
            &&& gone <= shard.records.len() ==> forall|i: int|
                0 <= i < store.shards.len() && i != target ==> #[trigger] after.shards[i]
                    == store.shards[i]
            &&& gone >= shard.records.len() ==> after.shards[target].records == records
        }),
{
    let after = store.ingest_all_at(target, records);
    let shard = store.shards[target];
    let gone = overflow(store, records.len());
    let reserved = store.reserve_all(target, records.len());
    lemma_reserve_all_effect(store, target, records.len());
    batch_keeps_account(store, target, records);
    batch_drops_only_oldest(store, target, records);
    reserve_all_drops_only_oldest(store, target, records.len());
    let held = after.shards[target].records;
    assert(held.skip(held.len() - records.len()) =~= records);
    if gone >= shard.records.len() {
        assert(held =~= records);
    }
    assert forall|i: int|
        gone <= shard.records.len() && 0 <= i < store.shards.len() && i
            != target implies #[trigger] after.shards[i] == store.shards[i] by {
        assert(after.shards[i] == reserved.shards[i]);
    }
}

/// Of a batch that is at least as long as the capacity, the newest records are kept,
/// as many as there are slots, and nothing else.
pub proof fn long_batch_keeps_its_newest(store: StoreView, target: int, records: Seq<Record>)
    requires
        0 < store.capacity <= records.len(),
        0 <= target < store.shards.len(),
        store.accounted(),
    ensures
        ({
            let after = store.ingest_all_at(target, records);
            &&& after.shards.len() == store.shards.len()
            &&& after.live == store.capacity
            &&& after.shards[target].records == records.skip(records.len() - store.capacity)
            &&& forall|i: int|
                0 <= i < store.shards.len() && i != target ==> (
                #[trigger] after.shards[i]).records.len() == 0
        }),
    decreases records.len(),
{
    let size = store.capacity as int;
    if records.len() == size {
        fitting_batch_is_kept(store, target, records);
        let after = store.ingest_all_at(target, records);
        lemma_sum_bounds(lens(store.shards), target);
        assert(records.skip(0) =~= records);
        let others = lens(after.shards).update(target, 0);
        lemma_sum_update(lens(after.shards), target, 0);
        lemma_sum_zero(others);
        assert forall|i: int| 0 <= i < store.shards.len() && i != target implies (
        #[trigger] after.shards[i]).records.len() == 0 by {
            assert(others[i] == 0);
        }
    } else {
        let first = records.take(size);
        let rest = records.skip(size);
        let piece = store.ingest_all_at(target, first);
        lemma_first_piece(store, target, records);
        long_batch_keeps_its_newest(store, target, first);
        batch_keeps_account(store, target, first);
        assert(first.skip(0) =~= first);
        let after = store.ingest_all_at(target, records);
        if rest.len() >= size {
            long_batch_keeps_its_newest(piece, target, rest);
            assert(rest.skip(rest.len() - size) =~= records.skip(records.len() - size));
        } else {
            fitting_batch_is_kept(piece, target, rest);
            assert(after.shards[target].records =~= records.skip(records.len() - size));
        }
    }
}

/// Host isolation for a batch: if the shard that is written to has as many earlier
/// records as slots are missing for the batch, it alone pays, with no more than it
/// must, and no other shard changes.
pub proof fn hot_shard_pays_for_a_batch(store: StoreView, target: int, records: Seq<Record>)
    requires
        0 < records.len() <= store.capacity,
        store.accounted(),
        0 <= target < store.shards.len(),
        overflow(store, records.len()) <= store.shards[target].records.len(),
    ensures
        store.ingest_all_at(target, records) == (StoreView {
            shards: store.shards.update(
                target,
                store.shards[target].evict(overflow(store, records.len())).push_all(records),
            ),
            live: (store.live + records.len() - overflow(store, records.len())) as nat,
            capacity: store.capacity,
        }),
{
    fitting_batch_is_kept(store, target, records);
    batch_drops_only_oldest(store, target, records);
    assert(store.ingest_all_at(target, records).shards =~= store.shards.update(
        target,
        store.shards[target].evict(overflow(store, records.len())).push_all(records),
    ));
}

/// With room for all of them, taking slots loses nothing.
proof fn lemma_reserve_all_with_room(store: StoreView, target: int, count: nat)
    requires
        store.capacity > 0,
        store.live + count <= store.capacity,
    ensures
        store.reserve_all(target, count) == (StoreView { live: store.live + count, ..store }),
    decreases count,
{
    if count > 0 {
        lemma_reserve_all_with_room(store, target, (count - 1) as nat);
    }
}

/// Where there is room for a whole batch, nothing is lost: the batch comes to
/// stand behind what its shard holds, in its order.
pub proof fn batch_with_room_loses_nothing(store: StoreView, target: int, records: Seq<Record>)
    requires
        store.capacity > 0,
        0 <= target < store.shards.len(),
        store.live + records.len() <= store.capacity,
    ensures
        store.ingest_all_at(target, records) == (StoreView {
            shards: store.shards.update(target, store.shards[target].push_all(records)),
            live: store.live + records.len(),
            capacity: store.capacity,
        }),
{
    lemma_reserve_all_with_room(store, target, records.len());
}

/// What enters the store stays: after an ingest, the record is the newest of its
/// shard and lies at the offset that the shard announced, and every other shard
/// has lost at most some of its oldest records.
pub proof fn ingested_record_is_newest(store: StoreView, target: int, record: Record)
    requires
        store.capacity > 0,
        0 <= target < store.shards.len(),
    ensures
        store.ingest_at(target, record).shards.len() == store.shards.len(),
        store.ingest_at(target, record).shards[target].records.len() > 0,
        store.ingest_at(target, record).shards[target].records.last() == record,
        store.ingest_at(target, record).shards[target].next() == store.shards[target].next() + 1,
        forall|i: int|
            0 <= i < store.shards.len() && i != target ==> trimmed(
                store.shards[i],
                #[trigger] store.ingest_at(target, record).shards[i],
            ),
{
    reserve_drops_only_oldest(store, target);
    let reserved = store.reserve(target);
    lemma_trimmed(store.shards[target], reserved.shards[target]);
    let after = store.ingest_at(target, record);
    assert(after.shards[target].records == reserved.shards[target].records + seq![record]);
    assert forall|i: int| 0 <= i < store.shards.len() && i != target implies trimmed(
        store.shards[i],
        #[trigger] after.shards[i],
    ) by {
        assert(after.shards[i] == reserved.shards[i]);
    }
}

/// Filtering keeps exactly the members that satisfy the condition.
proof fn lemma_filter_contains(records: Seq<Record>, p: spec_fn(Record) -> bool, record: Record)
    requires
        records.contains(record),
        p(record),
    ensures
        records.filter(p).contains(record),
{
    broadcast use vstd::seq_lib::group_filter_ensures;

}

proof fn lemma_all_records_contains(shards: Seq<ShardView>, i: int, record: Record)
    requires
        0 <= i < shards.len(),
        shards[i].records.contains(record),
    ensures
        all_records(shards).contains(record),
    decreases shards.len(),
{
    let rest = shards.drop_last();
    let last = shards.last().records;
    let all = all_records(rest) + last;
    if i < rest.len() {
        assert(rest[i] == shards[i]);
        lemma_all_records_contains(rest, i, record);
        let k = choose|k: int| 0 <= k < all_records(rest).len() && all_records(rest)[k] == record;
        assert(all[k] == record);
    } else {
        let k = choose|k: int| 0 <= k < last.len() && last[k] == record;
        assert(all[all_records(rest).len() + k] == record);
    }
}

/// A record that has just been ingested, into whichever shard, is found by every
/// query that it matches.
pub proof fn ingested_record_is_found(
    store: StoreView,
    target: int,
    record: Record,
    t1: i64,
    t2: i64,
)
    requires
        store.capacity > 0,
        0 <= target < store.shards.len(),
        t1 <= record.timestamp <= t2,
    ensures
        store.ingest_at(target, record).by_host(record.host, t1, t2).contains(record),
        store.ingest_at(target, record).by_service(record.service, t1, t2).contains(record),
        store.ingest_at(target, record).by_service_and_host(
            record.service,
            record.host,
            t1,
            t2,
        ).contains(record),
{
    ingested_record_is_newest(store, target, record);
    let after = store.ingest_at(target, record);
    let held = after.shards[target].records;
    assert(held[held.len() - 1] == record);
    assert(held.contains(record));
    lemma_all_records_contains(after.shards, target, record);
    lemma_found(after, record, t1, t2);
}

/// Every record of a batch that fits the capacity is found at once by every query that
/// it matches.
pub proof fn fitting_batch_is_found(
    store: StoreView,
    target: int,
    records: Seq<Record>,
    k: int,
    t1: i64,
    t2: i64,
)
    requires
        0 <= k < records.len() <= store.capacity,
        0 <= target < store.shards.len(),
        store.accounted(),
        t1 <= records[k].timestamp <= t2,
    ensures
        ({
            let after = store.ingest_all_at(target, records);
            let record = records[k];
            &&& after.by_host(record.host, t1, t2).contains(record)
            &&& after.by_service(record.service, t1, t2).contains(record)
            &&& after.by_service_and_host(record.service, record.host, t1, t2).contains(record)
        }),
{
    fitting_batch_is_kept(store, target, records);
    let after = store.ingest_all_at(target, records);
    let record = records[k];
    let held = after.shards[target].records;
    let earlier = held.len() - records.len();
    assert(held.skip(earlier)[k] == held[earlier + k]);
    assert(held.contains(record));
    lemma_all_records_contains(after.shards, target, record);
    lemma_found(after, record, t1, t2);
}

/// A live record is found by every query that it matches.
proof fn lemma_found(store: StoreView, record: Record, t1: i64, t2: i64)
    requires
        all_records(store.shards).contains(record),
        t1 <= record.timestamp <= t2,
    ensures
        store.by_host(record.host, t1, t2).contains(record),
        store.by_service(record.service, t1, t2).contains(record),
        store.by_service_and_host(record.service, record.host, t1, t2).contains(record),
{
    let all = all_records(store.shards);
    lemma_filter_contains(all, within(has(Dimension::Host, record.host), t1, t2), record);
    lemma_filter_contains(all, within(has(Dimension::Service, record.service), t1, t2), record);
    lemma_filter_contains(
        all,
        within(
            both(has(Dimension::Service, record.service), has(Dimension::Host, record.host)),
            t1,
            t2,
        ),
        record,
    );
}

/// Every record of a trimmed shard was in the shard before.
proof fn lemma_trimmed_records(before: ShardView, after: ShardView, k: int)
    requires
        trimmed(before, after),
        0 <= k < after.records.len(),
    ensures
        before.records.contains(after.records[k]),
{
    let count = choose|count: nat| after == #[trigger] before.evict(count);
    let gone = if count <= before.records.len() {
        count
    } else {
        before.records.len()
    };
    assert(after.records[k] == before.records[gone + k]);
}

/// What a shard holds after a record has entered the store, it held before, or it is
/// that record.
proof fn lemma_held_after(store: StoreView, target: int, record: Record, i: int, k: int)
    requires
        store.capacity > 0,
        0 <= target < store.shards.len(),
        0 <= i < store.shards.len(),
        0 <= k < store.ingest_at(target, record).shards[i].records.len(),
    ensures
        store.ingest_at(target, record).shards.len() == store.shards.len(),
        store.shards[i].records.contains(store.ingest_at(target, record).shards[i].records[k]) || (
        i == target && store.ingest_at(target, record).shards[i].records[k] == record),
{
    let reserved = store.reserve(target);
    let after = store.ingest_at(target, record);
    reserve_drops_only_oldest(store, target);
    assert(trimmed(store.shards[i], reserved.shards[i]));
    if k < reserved.shards[i].records.len() {
        assert(after.shards[i].records[k] == reserved.shards[i].records[k]);
        lemma_trimmed_records(store.shards[i], reserved.shards[i], k);
    }
}

/// What a shard holds after a batch has entered the store, it held before, or it is of
/// that batch.
proof fn lemma_held_after_batch(
    store: StoreView,
    target: int,
    records: Seq<Record>,
    i: int,
    k: int,
)
    requires
        store.capacity > 0,
        0 <= target < store.shards.len(),
        0 <= i < store.shards.len(),
        0 <= k < store.ingest_all_at(target, records).shards[i].records.len(),
    ensures
        ({
            let found = store.ingest_all_at(target, records).shards[i].records[k];
            store.shards[i].records.contains(found) || (i == target && records.contains(found))
        }),
{
    let after = store.ingest_all_at(target, records);
    batch_drops_only_oldest(store, target, records);
    if i == target {
        let whole = store.shards[i].push_all(records);
        lemma_trimmed_records(whole, after.shards[i], k);
        let held = store.shards[i].records.len();
        let m = choose|m: int|
            0 <= m < whole.records.len() && whole.records[m] == after.shards[i].records[k];
        if m < held {
            assert(store.shards[i].records[m] == after.shards[i].records[k]);
        } else {
            assert(records[m - held] == after.shards[i].records[k]);
        }
    } else {
        assert(trimmed(store.shards[i], after.shards[i]));
        lemma_trimmed_records(store.shards[i], after.shards[i], k);
    }
}

/// A record that enters the shard that owns its host keeps every record in the shard
/// that owns its host.
proof fn lemma_routed_ingest(store: StoreView, target: int, record: Record)
    requires
        store.capacity > 0,
        0 <= target < store.shards.len(),
        store.routed(),
        partition_of(record.host, store.shards.len()) == target,
    ensures
        store.ingest_at(target, record).routed(),
{
    let after = store.ingest_at(target, record);
    reserve_drops_only_oldest(store, target);
    assert forall|i: int, k: int|
        0 <= i < after.shards.len() && 0 <= k < after.shards[i].records.len() implies partition_of(
        (#[trigger] after.shards[i].records[k]).host,
        after.shards.len(),
    ) == i by {
        let found = after.shards[i].records[k];
        lemma_held_after(store, target, record, i, k);
        if store.shards[i].records.contains(found) {
            let m = choose|m: int|
                0 <= m < store.shards[i].records.len() && store.shards[i].records[m] == found;
            assert(partition_of(store.shards[i].records[m].host, store.shards.len()) == i);
        }
    }
}

/// Routing by host keeps every record in the shard that owns its host, so that a
/// host never has records in two shards.
pub proof fn ingest_keeps_routing(store: StoreView, record: Record)
    requires
        store.capacity > 0,
        store.shards.len() > 0,
        store.routed(),
    ensures
        store.ingest(record).routed(),
{
    partition_in_range(record.host, store.shards.len());
    lemma_routed_ingest(store, store.home(record.host), record);
}

/// A batch that consists of records of the hosts that its shard owns keeps the
/// routing, too.
pub proof fn batch_keeps_routing(store: StoreView, target: int, records: Seq<Record>)
    requires
        store.capacity > 0,
        0 <= target < store.shards.len(),
        store.routed(),
        forall|k: int|
            0 <= k < records.len() ==> partition_of(
                (#[trigger] records[k]).host,
                store.shards.len(),
            ) == target,
    ensures
        store.ingest_all_at(target, records).routed(),
{
    let after = store.ingest_all_at(target, records);
    batch_drops_only_oldest(store, target, records);
    assert forall|i: int, k: int|
        0 <= i < after.shards.len() && 0 <= k < after.shards[i].records.len() implies partition_of(
        (#[trigger] after.shards[i].records[k]).host,
        after.shards.len(),
    ) == i by {
        let found = after.shards[i].records[k];
        lemma_held_after_batch(store, target, records, i, k);
        if store.shards[i].records.contains(found) {
            let m = choose|m: int|
                0 <= m < store.shards[i].records.len() && store.shards[i].records[m] == found;
            assert(partition_of(store.shards[i].records[m].host, store.shards.len()) == i);
        } else {
            let m = choose|m: int| 0 <= m < records.len() && records[m] == found;
            assert(partition_of(records[m].host, store.shards.len()) == target);
        }
    }
}

/// In a routed store no host is in two shards, and every host may enter the shard
/// that owns it.
pub proof fn routed_hosts_are_apart(store: StoreView, host: Seq<char>)
    requires
        store.routed(),
    ensures
        hosts_apart(store.shards),
        only_at(store.shards, store.home(host), host),
{
    assert forall|i: int, name: Seq<char>|
        0 <= i < store.shards.len() && #[trigger] holds_host(store.shards[i], name) implies i
        == store.home(name) by {
        let k = choose|k: int|
            0 <= k < store.shards[i].records.len() && (#[trigger] store.shards[i].records[k]).host
                == name;
        assert(partition_of(store.shards[i].records[k].host, store.shards.len()) == i);
    }
}

/// The hosts of a shard after a record has entered the store are those it had before,
/// but for the record's own host.
proof fn lemma_hosts_after(store: StoreView, target: int, record: Record, i: int, host: Seq<char>)
    requires
        store.capacity > 0,
        0 <= target < store.shards.len(),
        0 <= i < store.shards.len(),
        holds_host(store.ingest_at(target, record).shards[i], host),
    ensures
        holds_host(store.shards[i], host) || (i == target && host == record.host),
{
    let held = store.ingest_at(target, record).shards[i].records;
    let k = choose|k: int| 0 <= k < held.len() && (#[trigger] held[k]).host == host;
    lemma_held_after(store, target, record, i, k);
    if store.shards[i].records.contains(held[k]) {
        let m = choose|m: int|
            0 <= m < store.shards[i].records.len() && store.shards[i].records[m] == held[k];
        assert(store.shards[i].records[m].host == host);
    }
}

/// The hosts of a shard after a batch has entered the store are those it had before,
/// but for the hosts of the batch in the shard that the batch entered.
pub proof fn batch_brings_its_hosts(
    store: StoreView,
    target: int,
    records: Seq<Record>,
    i: int,
    host: Seq<char>,
)
    requires
        store.capacity > 0,
        0 <= target < store.shards.len(),
        0 <= i < store.shards.len(),
        holds_host(store.ingest_all_at(target, records).shards[i], host),
    ensures
        holds_host(store.shards[i], host) || (i == target && has_host(records, host)),
{
    let held = store.ingest_all_at(target, records).shards[i].records;
    let k = choose|k: int| 0 <= k < held.len() && (#[trigger] held[k]).host == host;
    lemma_held_after_batch(store, target, records, i, k);
    if store.shards[i].records.contains(held[k]) {
        let m = choose|m: int|
            0 <= m < store.shards[i].records.len() && store.shards[i].records[m] == held[k];
        assert(store.shards[i].records[m].host == host);
    } else {
        let m = choose|m: int| 0 <= m < records.len() && records[m] == held[k];
        assert(records[m].host == host);
    }
}

/// No host gets into a second shard: a record that enters a shard while no other one
/// holds a record of its host leaves the hosts apart.
pub proof fn ingest_keeps_hosts_apart(store: StoreView, target: int, record: Record)
    requires
        store.capacity > 0,
        0 <= target < store.shards.len(),
        hosts_apart(store.shards),
        only_at(store.shards, target, record.host),
    ensures
        hosts_apart(store.ingest_at(target, record).shards),
{
    let after = store.ingest_at(target, record);
    reserve_drops_only_oldest(store, target);
    assert forall|i: int, j: int, host: Seq<char>|
        0 <= i < after.shards.len() && 0 <= j < after.shards.len() && #[trigger] holds_host(
            after.shards[i],
            host,
        ) && #[trigger] holds_host(after.shards[j], host) implies i == j by {
        lemma_hosts_after(store, target, record, i, host);
        lemma_hosts_after(store, target, record, j, host);
    }
}

/// So does a batch into a shard while no other one holds a record of its hosts.
pub proof fn batch_keeps_hosts_apart(store: StoreView, target: int, records: Seq<Record>)
    requires
        store.capacity > 0,
        0 <= target < store.shards.len(),
        hosts_apart(store.shards),
        forall|k: int|
            0 <= k < records.len() ==> only_at(
                store.shards,
                target,
                (#[trigger] records[k]).host,
            ),
    ensures
        hosts_apart(store.ingest_all_at(target, records).shards),
        forall|host: Seq<char>| #[trigger]
            only_at(store.shards, target, host) ==> only_at(
                store.ingest_all_at(target, records).shards,
                target,
                host,
            ),
{
    let after = store.ingest_all_at(target, records);
    batch_drops_only_oldest(store, target, records);
    assert forall|i: int, host: Seq<char>|
        0 <= i < after.shards.len() && #[trigger] holds_host(after.shards[i], host) implies (
    holds_host(store.shards[i], host) || (i == target && only_at(store.shards, target, host))) by {
        batch_brings_its_hosts(store, target, records, i, host);
        if i == target && has_host(records, host) {
            let k = choose|k: int| 0 <= k < records.len() && (#[trigger] records[k]).host == host;
            assert(only_at(store.shards, target, records[k].host));
        }
    }
    assert forall|host: Seq<char>| #[trigger] only_at(store.shards, target, host) implies only_at(
        after.shards,
        target,
        host,
    ) by {
        assert forall|i: int| 0 <= i < after.shards.len() && i != target implies !(
        #[trigger] holds_host(after.shards[i], host)) by {
            if holds_host(after.shards[i], host) {
                assert(holds_host(store.shards[i], host));
            }
        }
    }
}

/// Filtering by two conditions that agree on all members gives the same.
proof fn lemma_filter_same(
    records: Seq<Record>,
    p: spec_fn(Record) -> bool,
    q: spec_fn(Record) -> bool,
)
    requires
        forall|k: int| 0 <= k < records.len() ==> p(#[trigger] records[k]) == q(records[k]),
    ensures
        records.filter(p) == records.filter(q),
    decreases records.len(),
{
    reveal(Seq::filter);
    if records.len() > 0 {
        let rest = records.drop_last();
        assert forall|k: int| 0 <= k < rest.len() implies p(#[trigger] rest[k]) == q(rest[k]) by {
            assert(rest[k] == records[k]);
        }
        lemma_filter_same(rest, p, q);
        assert(p(records[records.len() - 1]) == q(records[records.len() - 1]));
    }
}

proof fn lemma_filter_twice(
    records: Seq<Record>,
    p: spec_fn(Record) -> bool,
    q: spec_fn(Record) -> bool,
)
    ensures
        records.filter(p).filter(q) == records.filter(both(p, q)),
    decreases records.len(),
{
    reveal(Seq::filter);
    if records.len() > 0 {
        let rest = records.drop_last();
        lemma_filter_twice(rest, p, q);
        let last = records.last();
        if p(last) {
            assert(rest.filter(p).push(last).drop_last() =~= rest.filter(p));
        }
    }
}

/// If only one shard holds records that satisfy a condition, the records of all
/// shards that satisfy it are those of that shard.
proof fn lemma_only_home(shards: Seq<ShardView>, home: int, p: spec_fn(Record) -> bool)
    requires
        forall|i: int, k: int|
            0 <= i < shards.len() && 0 <= k < shards[i].records.len() && i != home ==> !p(
                #[trigger] shards[i].records[k],
            ),
    ensures
        all_records(shards).filter(p) == if 0 <= home < shards.len() {
            shards[home].records.filter(p)
        } else {
            Seq::empty()
        },
    decreases shards.len(),
{
    if shards.len() == 0 {
        lemma_filter_none(Seq::empty(), p);
    } else {
        let rest = shards.drop_last();
        let last = shards.len() - 1;
        assert forall|i: int, k: int|
            0 <= i < rest.len() && 0 <= k < rest[i].records.len() && i != home implies !p(
            #[trigger] rest[i].records[k],
        ) by {
            assert(!p(shards[i].records[k]));
        }
        lemma_only_home(rest, home, p);
        Seq::filter_distributes_over_add(all_records(rest), shards.last().records, p);
        if home != last {
            assert forall|k: int| 0 <= k < shards[last].records.len() implies !p(
                #[trigger] shards[last].records[k],
            ) by {}
            lemma_filter_none(shards[last].records, p);
            assert(all_records(rest).filter(p) + Seq::<Record>::empty() =~= all_records(
                rest,
            ).filter(p));
        } else {
            assert(Seq::<Record>::empty() + shards[last].records.filter(p)
                =~= shards[last].records.filter(p));
        }
    }
}

/// Where a host has its records in one shard only, a query by host finds there what
/// it would find in all shards, and so does a query by service and host.
pub proof fn host_queries_need_one_shard(
    store: StoreView,
    at: int,
    service: Seq<char>,
    host: Seq<char>,
    t1: i64,
    t2: i64,
)
    requires
        only_at(store.shards, at, host),
    ensures
        store.by_host(host, t1, t2) == if 0 <= at < store.shards.len() {
            store.shards[at].records.filter(within(has(Dimension::Host, host), t1, t2))
        } else {
            Seq::empty()
        },
        store.by_service_and_host(service, host, t1, t2) == if 0 <= at < store.shards.len() {
            store.shards[at].records.filter(
                within(both(has(Dimension::Service, service), has(Dimension::Host, host)), t1, t2),
            )
        } else {
            Seq::empty()
        },
{
    let p = within(has(Dimension::Host, host), t1, t2);
    let q = within(both(has(Dimension::Service, service), has(Dimension::Host, host)), t1, t2);
    assert forall|i: int, k: int|
        0 <= i < store.shards.len() && 0 <= k < store.shards[i].records.len() && i
            != at implies !p(#[trigger] store.shards[i].records[k]) && !q(
        store.shards[i].records[k],
    ) by {
        if store.shards[i].records[k].host == host {
            assert(holds_host(store.shards[i], host));
        }
    }
    lemma_only_home(store.shards, at, p);
    lemma_only_home(store.shards, at, q);
}

/// A query by service and host finds exactly those records of the host query that
/// belong to the service.
pub proof fn service_narrows_host(
    store: StoreView,
    service: Seq<char>,
    host: Seq<char>,
    t1: i64,
    t2: i64,
)
    ensures
        store.by_service_and_host(service, host, t1, t2) == store.by_host(host, t1, t2).filter(
            has(Dimension::Service, service),
        ),
{
    let all = all_records(store.shards);
    let p = within(has(Dimension::Host, host), t1, t2);
    let q = has(Dimension::Service, service);
    lemma_filter_twice(all, p, q);
    lemma_filter_same(
        all,
        both(p, q),
        within(both(has(Dimension::Service, service), has(Dimension::Host, host)), t1, t2),
    );
}

/// The same records are those of the service query that belong to the host.
pub proof fn host_narrows_service(
    store: StoreView,
    service: Seq<char>,
    host: Seq<char>,
    t1: i64,
    t2: i64,
)
    ensures
        store.by_service_and_host(service, host, t1, t2) == store.by_service(
            service,
            t1,
            t2,
        ).filter(has(Dimension::Host, host)),
{
    let all = all_records(store.shards);
    let p = within(has(Dimension::Service, service), t1, t2);
    let q = has(Dimension::Host, host);
    lemma_filter_twice(all, p, q);
    lemma_filter_same(
        all,
        both(p, q),
        within(both(has(Dimension::Service, service), has(Dimension::Host, host)), t1, t2),
    );
}

proof fn lemma_all_records_concat(a: Seq<ShardView>, b: Seq<ShardView>)
    ensures
        all_records(a + b) == all_records(a) + all_records(b),
    decreases b.len(),
{
    if b.len() == 0 {
        assert(a + b =~= a);
        assert(all_records(a) + all_records(b) =~= all_records(a));
    } else {
        assert((a + b).drop_last() =~= a + b.drop_last());
        lemma_all_records_concat(a, b.drop_last());
        assert(all_records(a) + all_records(b) =~= (all_records(a) + all_records(b.drop_last()))
            + b.last().records);
    }
}

proof fn lemma_all_records_empty(shards: Seq<ShardView>)
    requires
        forall|i: int| 0 <= i < shards.len() ==> (#[trigger] shards[i]).records.len() == 0,
    ensures
        all_records(shards) == Seq::<Record>::empty(),
    decreases shards.len(),
{
    if shards.len() > 0 {
        let rest = shards.drop_last();
        assert forall|i: int| 0 <= i < rest.len() implies (
        #[trigger] rest[i]).records.len() == 0 by {
            assert(shards[i].records.len() == 0);
        }
        lemma_all_records_empty(rest);
        assert(shards[shards.len() - 1].records.len() == 0);
        assert(all_records(shards) =~= Seq::empty());
    }
}

/// Growing the store for a new partition leaves every shard, every record, the
/// account and the capacity as they were, and makes the partition's shard exist.
pub proof fn growth_keeps_everything(store: StoreView, id: u32)
    requires
        store.reachable(id),
    ensures
        has_shard(store.grow(id).shards, id),
        store.shards.is_prefix_of(store.grow(id).shards),
        all_records(store.grow(id).shards) == all_records(store.shards),
        store.grow(id).live == store.live,
        store.grow(id).capacity == store.capacity,
        store.accounted() ==> store.grow(id).accounted(),
        hosts_apart(store.shards) ==> hosts_apart(store.grow(id).shards),
        sum(capacities(store.grow(id).shards)) == sum(capacities(store.shards)),
{
    if has_shard(store.shards, id) {
        assert(store.shards =~= store.shards.take(store.shards.len() as int));
    } else {
        let first = store.shards.len() as u32;
        let count = (id - first + 1) as nat;
        let fresh = fresh_shards(first, count);
        let grown = store.grow(id).shards;
        assert(grown[store.shards.len() + count - 1] == fresh[count - 1]);
        lemma_all_records_concat(store.shards, fresh);
        lemma_all_records_empty(fresh);
        assert(all_records(grown) =~= all_records(store.shards));
        assert(lens(grown) =~= lens(store.shards) + lens(fresh));
        assert(capacities(grown) =~= capacities(store.shards) + capacities(fresh));
        lemma_sum_concat(lens(store.shards), lens(fresh));
        lemma_sum_concat(capacities(store.shards), capacities(fresh));
        lemma_sum_zero(lens(fresh));
        lemma_sum_zero(capacities(fresh));
        assert(store.shards =~= grown.take(store.shards.len() as int));
        assert forall|i: int, host: Seq<char>|
            0 <= i < grown.len() && #[trigger] holds_host(grown[i], host) implies i
            < store.shards.len() && holds_host(store.shards[i], host) by {
            if i >= store.shards.len() {
                assert(grown[i] == fresh[i - store.shards.len()]);
            }
        }
    }
}

/// What holds of a store in use: it has shards and slots, every taken slot is that
/// of a live record, no more are taken than there are, and the capacity is the sum
/// of the shards' shares.
pub open spec fn sound(store: StoreView) -> bool {
    &&& store.shards.len() > 0
    &&& store.accounted()
    &&& 0 < store.capacity == sum(capacities(store.shards))
    &&& store.live <= store.capacity
}

/// A new store is sound.
pub proof fn new_store_is_sound(capacity: usize, shard_count: nat)
    requires
        capacity > 0,
        shard_count > 0,
        capacity as nat % shard_count == 0,
    ensures
        sound(StoreView::with_shards(capacity, shard_count)),
{
    let store = StoreView::with_shards(capacity, shard_count);
    let share = capacity as nat / shard_count;
    new_store_is_accounted(capacity, shard_count);
    vstd::arithmetic::div_mod::lemma_fundamental_div_mod(capacity as int, shard_count as int);
    assert(share <= shard_count * share) by (nonlinear_arith)
        requires
            shard_count > 0,
    ;
    lemma_sum_repeated(shard_count, share);
    assert(capacities(store.shards) =~= Seq::new(shard_count, |i: int| share));
}

proof fn lemma_shares_kept(before: Seq<ShardView>, after: Seq<ShardView>)
    requires
        before.len() == after.len(),
        forall|i: int|
            0 <= i < before.len() ==> (#[trigger] after[i]).capacity == before[i].capacity,
    ensures
        sum(capacities(after)) == sum(capacities(before)),
{
    assert(capacities(after) =~= capacities(before));
}

/// A record keeps the store sound, whichever shard it enters.
proof fn lemma_ingest_at_sound(store: StoreView, target: int, record: Record)
    requires
        sound(store),
        0 <= target < store.shards.len(),
    ensures
        sound(store.ingest_at(target, record)),
{
    ingest_keeps_account(store, target, record);
    reserve_drops_only_oldest(store, target);
    let reserved = store.reserve(target);
    let after = store.ingest_at(target, record);
    assert forall|i: int| 0 <= i < store.shards.len() implies (#[trigger] after.shards[i]).capacity
        == store.shards[i].capacity by {
        assert(trimmed(store.shards[i], reserved.shards[i]));
        lemma_trimmed(store.shards[i], reserved.shards[i]);
    }
    lemma_shares_kept(store.shards, after.shards);
}

/// Every record that enters a sound store leaves it sound, by whichever of the two
/// ways it enters.
pub proof fn ingest_keeps_store_sound(store: StoreView, id: u32, record: Record)
    requires
        sound(store),
    ensures
        sound(store.ingest(record)),
        store.reachable(id) ==> sound(store.ingest_partition(id, record)),
{
    partition_in_range(record.host, store.shards.len());
    lemma_ingest_at_sound(store, store.home(record.host), record);
    if store.reachable(id) {
        growth_keeps_everything(store, id);
        let grown = store.grow(id);
        lemma_position(grown.shards, id);
        lemma_ingest_at_sound(grown, position(grown.shards, id), record);
    }
}

/// Records keep the store sound, whichever shard they enter and however many they are.
pub proof fn lemma_sound_batch(store: StoreView, target: int, records: Seq<Record>)
    requires
        sound(store),
        0 <= target < store.shards.len(),
    ensures
        sound(store.ingest_all_at(target, records)),
{
    if records.len() == 0 {
        assert(records =~= Seq::empty());
        lemma_no_records(store, target);
    } else {
        batch_keeps_account(store, target, records);
        batch_drops_only_oldest(store, target, records);
        batch_moves_offsets(store, target, records);
        lemma_shares_kept(store.shards, store.ingest_all_at(target, records).shards);
    }
}

/// So does every batch, however long it is.
pub proof fn batch_keeps_store_sound(store: StoreView, id: u32, records: Seq<Record>)
    requires
        sound(store),
        records.len() > 0 ==> store.reachable(id),
    ensures
        sound(store.ingest_partition_batch(id, records)),
{
    if records.len() > 0 {
        growth_keeps_everything(store, id);
        let grown = store.grow(id);
        lemma_position(grown.shards, id);
        lemma_sound_batch(grown, position(grown.shards, id), records);
    }
}

/// A restored store is sound if it has slots and holds no more than fits.
pub proof fn restored_store_is_sound(images: Seq<ShardImage>, store: StoreView)
    requires
        restores(images, store),
        images.len() > 0,
        store.capacity > 0,
        sum(lens(store.shards)) <= store.capacity,
    ensures
        sound(store),
{
    if store.shards.len() == 0 {
        let views = restored_views(images);
        let id = views.last().id;
        lemma_filter_last(views, id);
        assert(store.shards.filter(id_is(id)).len() > 0);
        lemma_id_present(store.shards, id);
    }
}

/// Every shard has its position as its id.
pub open spec fn ids_are_positions(store: StoreView) -> bool {
    &&& store.shards.len() <= 0x1_0000_0000
    &&& forall|i: int| 0 <= i < store.shards.len() ==> (#[trigger] store.shards[i]).id == i
}

/// Whatever partitions its records belong to, a batch of the given size finds its
/// shards and offsets, and the store has slots at all.
pub open spec fn takes_batches(store: StoreView, count: nat) -> bool {
    &&& store.capacity > 0
    &&& ids_are_positions(store)
    &&& forall|i: int|
        0 <= i < store.shards.len() ==> (#[trigger] store.shards[i]).next() + count <= u64::MAX
}

/// A new store's shards have their positions as their ids.
pub proof fn new_store_has_positions_as_ids(capacity: usize, shard_count: nat)
    requires
        shard_count <= 0x1_0000_0000,
    ensures
        ids_are_positions(StoreView::with_shards(capacity, shard_count)),
{
}

/// Where the shards have their positions as their ids, every partition has its
/// shard at the position of its id or can get it there, and a batch for it, one
/// record or many, leaves the ids as they are.
pub proof fn partitions_are_positions(store: StoreView, id: u32, records: Seq<Record>)
    requires
        store.capacity > 0,
        ids_are_positions(store),
    ensures
        store.reachable(id),
        position(store.grow(id).shards, id) == id,
        ids_are_positions(store.grow(id)),
        ids_are_positions(store.ingest_partition_batch(id, records)),
        records.len() == 1 ==> ids_are_positions(store.ingest_partition(id, records[0])),
{
    let grown = store.grow(id);
    if id < store.shards.len() {
        assert(store.shards[id as int].id == id);
    } else {
        assert forall|i: int| 0 <= i < store.shards.len() implies (
        #[trigger] store.shards[i]).id != id by {}
        let first = store.shards.len() as u32;
        let count = (id - first + 1) as nat;
        let fresh = fresh_shards(first, count);
        assert forall|i: int| 0 <= i < grown.shards.len() implies (
        #[trigger] grown.shards[i]).id == i by {
            if i < store.shards.len() {
                assert(store.shards[i].id == i);
            } else {
                assert(grown.shards[i] == fresh[i - store.shards.len()]);
            }
        }
    }
    assert(grown.shards[id as int].id == id);
    assert(is_first(grown.shards, id, id as int));
    lemma_position(grown.shards, id);
    let at = id as int;
    batch_drops_only_oldest(grown, at, records);
    batch_moves_offsets(grown, at, records);
    let many = grown.ingest_all_at(at, records);
    assert forall|i: int| 0 <= i < grown.shards.len() implies (#[trigger] many.shards[i]).id
        == i by {
        assert(grown.shards[i].id == i);
    }
    let after = store.ingest_partition_batch(id, records);
    assert forall|i: int| 0 <= i < after.shards.len() implies (#[trigger] after.shards[i]).id
        == i by {
        if records.len() == 0 {
            assert(store.shards[i].id == i);
        } else {
            assert(many.shards[i].id == i);
        }
    }
    if records.len() == 1 {
        assert(records =~= seq![records[0]]);
        batch_of_one(grown, at, records[0]);
        assert(store.ingest_partition(id, records[0]) == many);
    }
}

/// Producers and the store agree: a record that a producer sends to the partition
/// of its host enters the very shard that the store itself would choose.
pub proof fn producers_and_store_agree(store: StoreView, record: Record)
    requires
        store.shards.len() > 0,
        ids_are_positions(store),
    ensures
        store.ingest_partition(partition_of(record.host, store.shards.len()) as u32, record)
            == store.ingest(record),
{
    partition_in_range(record.host, store.shards.len());
    let home = store.home(record.host);
    let id = home as u32;
    assert(store.shards[home].id == id);
    assert(is_first(store.shards, id, home));
    lemma_position(store.shards, id);
}

/// Routing by host leaves the ids as they are, too.
pub proof fn ingest_keeps_ids(store: StoreView, record: Record)
    requires
        store.capacity > 0,
        store.shards.len() > 0,
        ids_are_positions(store),
    ensures
        ids_are_positions(store.ingest(record)),
{
    partition_in_range(record.host, store.shards.len());
    let home = store.home(record.host);
    reserve_drops_only_oldest(store, home);
    let reserved = store.reserve(home);
    let after = store.ingest(record);
    assert forall|i: int| 0 <= i < after.shards.len() implies (#[trigger] after.shards[i]).id
        == i by {
        assert(trimmed(store.shards[i], reserved.shards[i]));
        lemma_trimmed(store.shards[i], reserved.shards[i]);
        assert(store.shards[i].id == i);
    }
}

/// The last shard of a sequence ends the list of the shards with its id, and
/// leaves all other such lists alone.
proof fn lemma_filter_last(shards: Seq<ShardView>, id: u32)
    requires
        shards.len() > 0,
    ensures
        shards.last().id == id ==> shards.filter(id_is(id)) == shards.drop_last().filter(
            id_is(id),
        ).push(shards.last()),
        shards.last().id != id ==> shards.filter(id_is(id)) == shards.drop_last().filter(
            id_is(id),
        ),
{
    reveal(Seq::filter);
}

proof fn lemma_id_present(shards: Seq<ShardView>, id: u32)
    requires
        shards.filter(id_is(id)).len() > 0,
    ensures
        exists|i: int| 0 <= i < shards.len() && (#[trigger] shards[i]).id == id,
    decreases shards.len(),
{
    reveal(Seq::filter);
    if shards.len() > 0 {
        let rest = shards.drop_last();
        if shards.last().id == id {
            assert(shards[shards.len() - 1].id == id);
        } else {
            lemma_id_present(rest, id);
            let i = choose|i: int| 0 <= i < rest.len() && (#[trigger] rest[i]).id == id;
            assert(shards[i].id == id);
        }
    }
}

/// Shards have one order by id.
proof fn lemma_id_sort_unique(a: Seq<ShardView>, b: Seq<ShardView>)
    requires
        sorted_by_id(a),
        sorted_by_id(b),
        forall|id: u32| #[trigger] a.filter(id_is(id)) == b.filter(id_is(id)),
    ensures
        a == b,
    decreases a.len(),
{
    if a.len() == 0 {
        if b.len() > 0 {
            let id = b.last().id;
            lemma_filter_last(b, id);
            assert(a.filter(id_is(id)).len() > 0);
            lemma_id_present(a, id);
        }
        assert(a =~= b);
    } else {
        let x = a.last();
        lemma_filter_last(a, x.id);
        assert(b.filter(id_is(x.id)).len() > 0);
        lemma_id_present(b, x.id);
        let y = b.last();
        lemma_filter_last(b, y.id);
        assert(a.filter(id_is(y.id)).len() > 0);
        lemma_id_present(a, y.id);
        assert(x.id == y.id) by {
            let i = choose|i: int| 0 <= i < b.len() && (#[trigger] b[i]).id == x.id;
            let j = choose|j: int| 0 <= j < a.len() && (#[trigger] a[j]).id == y.id;
            assert(b[i].id <= b[b.len() - 1].id);
            assert(a[j].id <= a[a.len() - 1].id);
        }
        let all = a.filter(id_is(x.id));
        assert(all.last() == x);
        assert(all.last() == y);
        let ra = a.drop_last();
        let rb = b.drop_last();
        assert forall|i: int, j: int| 0 <= i <= j < ra.len() implies (#[trigger] ra[i]).id <= (
        #[trigger] ra[j]).id by {
            assert(a[i].id <= a[j].id);
        }
        assert forall|i: int, j: int| 0 <= i <= j < rb.len() implies (#[trigger] rb[i]).id <= (
        #[trigger] rb[j]).id by {
            assert(b[i].id <= b[j].id);
        }
        assert forall|id: u32| #[trigger] ra.filter(id_is(id)) == rb.filter(id_is(id)) by {
            lemma_filter_last(a, id);
            lemma_filter_last(b, id);
            assert(a.filter(id_is(id)) == b.filter(id_is(id)));
            if id == x.id {
                assert(ra.filter(id_is(id)).push(x).drop_last() =~= ra.filter(id_is(id)));
                assert(rb.filter(id_is(id)).push(x).drop_last() =~= rb.filter(id_is(id)));
            }
        }
        lemma_id_sort_unique(ra, rb);
        assert(a =~= ra.push(x));
        assert(b =~= rb.push(y));
    }
}

/// A snapshot restores one store only.
pub proof fn restored_store_is_unique(images: Seq<ShardImage>, a: StoreView, b: StoreView)
    requires
        restores(images, a),
        restores(images, b),
    ensures
        a == b,
{
    lemma_id_sort_unique(a.shards, b.shards);
}

/// A store can be saved as a snapshot without loss: its shards are in id order,
/// its account and capacity are in order, no host is in two shards, and its counts and
/// strings fit their length fields.
pub open spec fn savable(store: StoreView) -> bool {
    &&& store.shards.len() > 0
    &&& sorted_by_id(store.shards)
    &&& store.accounted()
    &&& hosts_apart(store.shards)
    &&& store.capacity == sum(capacities(store.shards))
    &&& store.capacity <= usize::MAX
    &&& encodable_shards(images(store.shards))
    &&& forall|i: int|
        0 <= i < store.shards.len() ==> (#[trigger] store.shards[i]).next() <= u64::MAX
}

/// What is saved comes back: from the bytes of a store's snapshot and nothing but
/// them, the very same store is restored, with the Kafka offsets that were saved
/// beside it.
pub proof fn snapshot_restores_the_store(
    store: StoreView,
    topics: Seq<TopicView>,
    restored: StoreView,
)
    requires
        savable(store),
        encodable_topics(topics),
        distinct(topics),
    ensures
        decode_snapshot(encode_snapshot(images(store.shards), topics)) matches Ok(contents) && {
            &&& contents.shards.len() > 0
            &&& restorable(contents.shards)
            &&& hosts_apart(restored_views(contents.shards))
            &&& contents.total_capacity == store.capacity
            &&& restores(contents.shards, store)
            &&& restores(contents.shards, restored) ==> restored == store
            &&& apply_topics(Map::empty(), contents.topics) == offset_map(topics)
        },
{
    let kept = images(store.shards);
    let data = encode_snapshot(kept, topics);
    assert(data.subrange(0, data.len() as int) =~= data);
    assert(image_capacities(kept) =~= capacities(store.shards));
    snapshot_round_trip(data, kept, topics);
    listed_offsets_round_trip(topics);
    assert forall|i: int| 0 <= i < kept.len() implies (#[trigger] kept[i]).records.len()
        <= kept[i].next_offset by {
        assert(store.shards[i].next() <= u64::MAX);
    }
    assert(restored_views(kept) =~= store.shards) by {
        assert forall|i: int| 0 <= i < kept.len() implies restored_views(kept)[i]
            == store.shards[i] by {
            assert(store.shards[i].next() <= u64::MAX);
            assert(restored_views(kept)[i] =~= store.shards[i]);
        }
    }
    if restores(kept, restored) {
        restored_store_is_unique(kept, restored, store);
    }
}

} // verus!
