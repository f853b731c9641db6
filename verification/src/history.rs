//! What holds of a store over a sequence of calls. Calls that only read, flush the
//! indexer or save a snapshot leave what a store holds as it is, so that only the
//! writing ones are listed here.

use crate::log_entry::Record;
use crate::partition::ShardView;
use crate::routing::partition_in_range;
use crate::store_laws::{
    batch_keeps_hosts_apart, fitting_batch_is_kept, growth_keeps_everything, lemma_sound_batch,
    len_never_decreases, new_store_is_accounted, new_store_is_sound, sound,
};
use crate::store_model::{
    batch_drops_only_oldest, batch_moves_offsets, batch_of_one, fresh_shards, has_shard,
    hosts_apart, lemma_position, lens, only_at, position, StoreView,
};
use crate::totals::sum;
use vstd::prelude::*;

verus! {

/// A call that writes to a store.
pub enum StoreCall {
    /// A record enters the shard that owns its host.
    Ingest(Record),
    /// A record enters the shard of a partition.
    Partition(u32, Record),
    /// Records enter the shard of a partition.
    Batch(u32, Seq<Record>),
}

/// The records that a call brings.
pub open spec fn brought(call: StoreCall) -> Seq<Record> {
    match call {
        StoreCall::Ingest(record) => seq![record],
        StoreCall::Partition(_, record) => seq![record],
        StoreCall::Batch(_, records) => records,
    }
}

/// The store with the shard that a call needs.
pub open spec fn prepared(store: StoreView, call: StoreCall) -> StoreView {
    match call {
        StoreCall::Ingest(_) => store,
        StoreCall::Partition(id, _) => store.grow(id),
        StoreCall::Batch(id, _) => store.grow(id),
    }
}

/// The position of the shard that a call writes to.
pub open spec fn target(store: StoreView, call: StoreCall) -> int {
    match call {
        StoreCall::Ingest(record) => store.home(record.host),
        StoreCall::Partition(id, _) => position(store.grow(id).shards, id),
        StoreCall::Batch(id, _) => position(store.grow(id).shards, id),
    }
}

/// The store after a call.
pub open spec fn called(store: StoreView, call: StoreCall) -> StoreView {
    match call {
        StoreCall::Ingest(record) => store.ingest(record),
        StoreCall::Partition(id, record) => store.ingest_partition(id, record),
        StoreCall::Batch(id, records) => store.ingest_partition_batch(id, records),
    }
}

/// The call is allowed: the store has slots, the partition has or can get a shard, and
/// no other shard holds records of the hosts.
pub open spec fn allowed(store: StoreView, call: StoreCall) -> bool {
    brought(call).len() > 0 ==> {
        &&& store.capacity > 0
        &&& match call {
            StoreCall::Ingest(_) => true,
            StoreCall::Partition(id, _) => store.reachable(id),
            StoreCall::Batch(id, _) => store.reachable(id),
        }
        &&& forall|k: int|
            0 <= k < brought(call).len() ==> only_at(
                prepared(store, call).shards,
                target(store, call),
                (#[trigger] brought(call)[k]).host,
            )
    }
}

/// The store after calls in their order.
pub open spec fn after(store: StoreView, calls: Seq<StoreCall>) -> StoreView
    decreases calls.len(),
{
    if calls.len() == 0 {
        store
    } else {
        called(after(store, calls.drop_last()), calls.last())
    }
}

/// Every one of the calls is allowed when its turn comes.
pub open spec fn all_allowed(store: StoreView, calls: Seq<StoreCall>) -> bool
    decreases calls.len(),
{
    calls.len() == 0 || (all_allowed(store, calls.drop_last()) && allowed(
        after(store, calls.drop_last()),
        calls.last(),
    ))
}

/// The offset that the next record of the shard at a position will get. A shard that
/// is not there yet starts at zero.
pub open spec fn next_at(shards: Seq<ShardView>, at: int) -> nat {
    if 0 <= at < shards.len() {
        shards[at].next()
    } else {
        0
    }
}

/// How many records a call adds to the shard at a position.
pub open spec fn entered_by(store: StoreView, call: StoreCall, at: int) -> nat {
    if target(store, call) == at {
        brought(call).len()
    } else {
        0
    }
}

/// How many records calls have added to the shard at a position, whether or not they
/// are still live.
pub open spec fn entered(store: StoreView, calls: Seq<StoreCall>, at: int) -> nat
    decreases calls.len(),
{
    if calls.len() == 0 {
        0
    } else {
        entered(store, calls.drop_last(), at) + entered_by(
            after(store, calls.drop_last()),
            calls.last(),
            at,
        )
    }
}

/// What one call does, seen in the same way for all calls.
proof fn lemma_called(store: StoreView, call: StoreCall)
    requires
        store.shards.len() > 0,
        allowed(store, call),
    ensures
        brought(call).len() > 0 ==> {
            &&& called(store, call) == prepared(store, call).ingest_all_at(
                target(store, call),
                brought(call),
            )
            &&& 0 <= target(store, call) < prepared(store, call).shards.len()
            &&& prepared(store, call).capacity == store.capacity
            &&& prepared(store, call).live == store.live
            &&& store.shards.len() <= prepared(store, call).shards.len()
            &&& hosts_apart(store.shards) ==> hosts_apart(prepared(store, call).shards)
            &&& sound(store) ==> sound(prepared(store, call))
        },
        brought(call).len() == 0 ==> called(store, call) == store,
        forall|at: int| #[trigger]
            next_at(prepared(store, call).shards, at) == next_at(store.shards, at),
{
    match call {
        StoreCall::Ingest(record) => {
            partition_in_range(record.host, store.shards.len());
            batch_of_one(store, store.home(record.host), record);
        },
        StoreCall::Partition(id, record) => {
            growth_keeps_everything(store, id);
            let grown = store.grow(id);
            lemma_position(grown.shards, id);
            batch_of_one(grown, position(grown.shards, id), record);
            lemma_grown_next(store, id);
        },
        StoreCall::Batch(id, records) => {
            if records.len() > 0 {
                growth_keeps_everything(store, id);
                lemma_position(store.grow(id).shards, id);
            }
            lemma_grown_next(store, id);
        },
    }
}

/// Growing a store gives out no offset.
proof fn lemma_grown_next(store: StoreView, id: u32)
    ensures
        forall|at: int| #[trigger]
            next_at(store.grow(id).shards, at) == next_at(store.shards, at),
{
    if !has_shard(store.shards, id) {
        let first = store.shards.len() as u32;
        let fresh = fresh_shards(first, (id - first + 1) as nat);
        let grown = store.grow(id).shards;
        assert forall|at: int| #[trigger] next_at(grown, at) == next_at(store.shards, at) by {
            if 0 <= at < store.shards.len() {
                assert(grown[at] == store.shards[at]);
            } else if store.shards.len() <= at < grown.len() {
                assert(grown[at] == fresh[at - store.shards.len()]);
            }
        }
    }
}

/// One call moves the next offset of the shard that it writes to by the number of its
/// records, and no other.
proof fn lemma_call_offsets(store: StoreView, call: StoreCall, at: int)
    requires
        store.shards.len() > 0,
        allowed(store, call),
    ensures
        next_at(called(store, call).shards, at) == next_at(store.shards, at) + entered_by(
            store,
            call,
            at,
        ),
        called(store, call).shards.len() > 0,
{
    lemma_called(store, call);
    if brought(call).len() > 0 {
        let base = prepared(store, call);
        batch_drops_only_oldest(base, target(store, call), brought(call));
        batch_moves_offsets(base, target(store, call), brought(call));
        assert(next_at(base.shards, at) == next_at(store.shards, at));
        if 0 <= at < base.shards.len() {
            let moved = base.ingest_all_at(target(store, call), brought(call)).shards[at];
            assert(moved == called(store, call).shards[at]);
        }
    }
}

/// Offsets are given out one after the other, without gap and without reuse, whatever
/// is evicted meanwhile: over any calls the next offset of a shard moves by exactly
/// the number of records that have entered it.
pub proof fn offsets_count_entries(store: StoreView, calls: Seq<StoreCall>, at: int)
    requires
        store.shards.len() > 0,
        all_allowed(store, calls),
    ensures
        next_at(after(store, calls).shards, at) == next_at(store.shards, at) + entered(
            store,
            calls,
            at,
        ),
        after(store, calls).shards.len() > 0,
    decreases calls.len(),
{
    if calls.len() > 0 {
        let rest = calls.drop_last();
        offsets_count_entries(store, rest, at);
        lemma_call_offsets(after(store, rest), calls.last(), at);
    }
}

/// The offset that a call of `ingest` or `ingest_partition` returns.
pub open spec fn returned_offset(store: StoreView, call: StoreCall) -> nat {
    match call {
        StoreCall::Ingest(record) => store.shards[store.home(record.host)].next(),
        StoreCall::Partition(id, _) => store.next_of(id),
        StoreCall::Batch(id, _) => store.next_of(id),
    }
}

/// In a store that was new, a record gets as its offset the number of records that
/// have ever entered its shard before it: 0, 1, 2 and so on.
pub proof fn offsets_start_at_zero(
    capacity: usize,
    shard_count: nat,
    calls: Seq<StoreCall>,
    call: StoreCall,
)
    requires
        shard_count > 0,
        all_allowed(StoreView::with_shards(capacity, shard_count), calls.push(call)),
        brought(call).len() > 0,
    ensures
        ({
            let new = StoreView::with_shards(capacity, shard_count);
            let store = after(new, calls);
            returned_offset(store, call) == entered(new, calls, target(store, call))
        }),
{
    let new = StoreView::with_shards(capacity, shard_count);
    assert(calls.push(call).drop_last() =~= calls);
    let store = after(new, calls);
    let at = target(store, call);
    offsets_count_entries(new, calls, at);
    lemma_called(store, call);
    assert(next_at(new.shards, at) == 0);
    assert(next_at(prepared(store, call).shards, at) == next_at(store.shards, at));
    assert(returned_offset(store, call) == next_at(prepared(store, call).shards, at));
}

/// What a store in use keeps over any calls: it stays sound, so that its length is the
/// number of its live records and within the capacity, no host gets into a second
/// shard, and it never gets shorter.
pub proof fn stores_in_use_keep_order(store: StoreView, calls: Seq<StoreCall>)
    requires
        sound(store),
        hosts_apart(store.shards),
        all_allowed(store, calls),
    ensures
        sound(after(store, calls)),
        hosts_apart(after(store, calls).shards),
        after(store, calls).live == sum(lens(after(store, calls).shards)),
        after(store, calls).capacity == store.capacity,
        store.live <= after(store, calls).live <= store.capacity,
    decreases calls.len(),
{
    if calls.len() > 0 {
        let rest = calls.drop_last();
        let call = calls.last();
        let before = after(store, rest);
        stores_in_use_keep_order(store, rest);
        lemma_called(before, call);
        if brought(call).len() > 0 {
            let base = prepared(before, call);
            let at = target(before, call);
            batch_drops_only_oldest(base, at, brought(call));
            batch_keeps_hosts_apart(base, at, brought(call));
            len_never_decreases(base, at, brought(call));
            lemma_sound_batch(base, at, brought(call));
        }
    }
}

/// Whatever has happened before, a batch that fits the capacity is kept whole: after
/// the call its records are the newest of the shard that it writes to, in their order,
/// and the store has grown by as many records as there were slots free for them.
pub proof fn fitting_batches_are_kept(
    store: StoreView,
    calls: Seq<StoreCall>,
    id: u32,
    records: Seq<Record>,
)
    requires
        sound(store),
        hosts_apart(store.shards),
        all_allowed(store, calls.push(StoreCall::Batch(id, records))),
        0 < records.len() <= store.capacity,
    ensures
        ({
            let call = StoreCall::Batch(id, records);
            let before = after(store, calls);
            let end = after(store, calls.push(call));
            let at = target(before, call);
            let held = end.shards[at].records;
            &&& end == before.grow(id).reserve_all(at, records.len()).append(at, records)
            &&& records.len() <= held.len()
            &&& held.skip(held.len() - records.len()) == records
            &&& end.live == if before.live + records.len() <= store.capacity {
                before.live + records.len()
            } else {
                store.capacity
            }
        }),
{
    let call = StoreCall::Batch(id, records);
    assert(calls.push(call).drop_last() =~= calls);
    let before = after(store, calls);
    stores_in_use_keep_order(store, calls);
    lemma_called(before, call);
    fitting_batch_is_kept(prepared(before, call), target(before, call), records);
}

/// Every store that was new stays sound, and its hosts apart.
pub proof fn new_stores_keep_order(capacity: usize, shard_count: nat, calls: Seq<StoreCall>)
    requires
        capacity > 0,
        shard_count > 0,
        capacity as nat % shard_count == 0,
        all_allowed(StoreView::with_shards(capacity, shard_count), calls),
    ensures
        ({
            let store = after(StoreView::with_shards(capacity, shard_count), calls);
            &&& sound(store)
            &&& hosts_apart(store.shards)
            &&& store.live == sum(lens(store.shards)) <= store.capacity == capacity
        }),
{
    new_store_is_sound(capacity, shard_count);
    new_store_is_accounted(capacity, shard_count);
    stores_in_use_keep_order(StoreView::with_shards(capacity, shard_count), calls);
}

} // verus!
