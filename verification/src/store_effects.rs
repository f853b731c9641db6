//! What the operations of a store come to, shard by shard and record by record.

use crate::log_entry::Record;
use crate::offsets::{both, has, within, Dimension};
use crate::partition::{Run, ShardView};
use crate::routing::{hashes_select_partitions, str_hash_writes};
use crate::snapshot::ShardImage;
use crate::store_laws::{hot_shard_pays, overflow, takes_batches};
use crate::store_model::{
    all_records, answers, any_live, batch_of_one, capacities, fresh_shards, has_host, holds_host,
    hosts_apart, id_is, images, is_first, is_fullest, lags, lemma_fullest, lemma_position, lens,
    next_offsets, only_at, reserve_drops_only_oldest, restorable, restored_views, restores, trimmed,
    StoreView,
};
use crate::totals::sum;
use std::collections::hash_map::DefaultHasher;
use vstd::std_specs::hash::DefaultHasherAdditionalSpecFns;
use vstd::prelude::*;

verus! {

/// Being full is no reason to refuse a batch, nor is anything else but the lack of slots,
/// a shard whose id is not its position, or a shard without enough offsets left.
pub proof fn being_full_refuses_nothing(store: StoreView, count: nat)
    requires
        store.capacity > 0,
        store.shards.len() <= 0x1_0000_0000,
        forall|i: int| 0 <= i < store.shards.len() ==> (#[trigger] store.shards[i]).id == i,
        forall|i: int|
            0 <= i < store.shards.len() ==> (#[trigger] store.shards[i]).oldest
                + store.shards[i].records.len() + count <= u64::MAX,
    ensures
        takes_batches(store, count),
{
}

/// A store that takes batches has slots, its shards have their positions as their ids,
/// and each of them has enough offsets left.
pub proof fn taking_batches_needs_offsets(store: StoreView, count: nat)
    requires
        takes_batches(store, count),
    ensures
        store.capacity > 0,
        store.shards.len() <= 0x1_0000_0000,
        forall|i: int| 0 <= i < store.shards.len() ==> (#[trigger] store.shards[i]).id == i,
        forall|i: int|
            0 <= i < store.shards.len() ==> (#[trigger] store.shards[i]).oldest
                + store.shards[i].records.len() + count <= u64::MAX,
{
}

/// Evicting takes records from the front only, as many as asked for or all that there
/// are, and the offsets of the rest stay. Appending adds behind the rest.
pub proof fn eviction_takes_the_oldest(shard: ShardView, count: nat, more: Seq<Record>)
    ensures
        count <= shard.records.len() ==> shard.evict(count) == (ShardView {
            oldest: shard.oldest + count,
            records: shard.records.skip(count as int),
            ..shard
        }),
        count > shard.records.len() ==> shard.evict(count) == (ShardView {
            oldest: shard.oldest + shard.records.len(),
            records: Seq::empty(),
            ..shard
        }),
        shard.push_all(more) == (ShardView { records: shard.records + more, ..shard }),
        more.len() == 1 ==> shard.push(more[0]) == shard.push_all(more),
        shard.next() == shard.oldest + shard.records.len(),
{
    if count > shard.records.len() {
        assert(shard.records.skip(shard.records.len() as int) =~= Seq::empty());
    }
    if more.len() == 1 {
        assert(shard.records + more =~= shard.records.push(more[0]));
    }
}

/// The same of a run of records.
pub proof fn runs_give_up_their_oldest(run: Run, count: nat, record: Record)
    ensures
        count <= run.records.len() ==> run.evict(count) == (Run {
            oldest: run.oldest + count,
            records: run.records.skip(count as int),
        }),
        count > run.records.len() ==> run.evict(count) == (Run {
            oldest: run.oldest + run.records.len(),
            records: Seq::empty(),
        }),
        run.push(record) == (Run { oldest: run.oldest, records: run.records.push(record) }),
        run.next() == run.oldest + run.records.len(),
{
    if count > run.records.len() {
        assert(run.records.skip(run.records.len() as int) =~= Seq::empty());
    }
}

/// While there is a free slot, taking it changes no shard.
pub proof fn free_slot_costs_nothing(store: StoreView, target: int)
    requires
        store.live < store.capacity,
    ensures
        store.reserve(target) == (StoreView {
            shards: store.shards,
            live: store.live + 1,
            capacity: store.capacity,
        }),
{
}

/// Without a free slot the shard that is written to gives up its oldest records, exactly
/// as many as slots are missing, if it has as many, and no other shard gives up any.
pub proof fn written_shard_makes_room(store: StoreView, target: int, missing: nat)
    requires
        store.capacity > 0,
        0 <= target < store.shards.len(),
        store.live + 1 == store.capacity + missing,
        missing <= store.shards[target].records.len(),
    ensures
        store.reserve(target) == (StoreView {
            shards: store.shards.update(
                target,
                ShardView {
                    oldest: store.shards[target].oldest + missing,
                    records: store.shards[target].records.skip(missing as int),
                    ..store.shards[target]
                },
            ),
            live: store.capacity,
            capacity: store.capacity,
        }),
    decreases store.live,
{
    hot_shard_pays(store, target);
    assert(overflow(store, 1) == missing);
    eviction_takes_the_oldest(store.shards[target], missing, Seq::empty());
    reserving_keeps_capacity(store, target);
}

/// Taking a slot leaves the number of slots as it is.
pub proof fn reserving_keeps_capacity(store: StoreView, target: int)
    requires
        store.capacity > 0,
        0 <= target < store.shards.len(),
    ensures
        store.reserve(target).capacity == store.capacity,
{
    reserve_drops_only_oldest(store, target);
}

/// However many slots are missing, the shard that is written to gives up its oldest record
/// first, as long as it has one.
pub proof fn written_shard_goes_first(store: StoreView, target: int)
    requires
        store.capacity > 0,
        store.live >= store.capacity,
        0 <= target < store.shards.len(),
        store.shards[target].records.len() > 0,
    ensures
        store.reserve(target) == (StoreView {
            shards: store.shards.update(
                target,
                ShardView {
                    oldest: store.shards[target].oldest + 1,
                    records: store.shards[target].records.skip(1),
                    ..store.shards[target]
                },
            ),
            live: (store.live - 1) as nat,
            capacity: store.capacity,
        }).reserve(target),
{
    eviction_takes_the_oldest(store.shards[target], 1, Seq::empty());
}

/// Where the shard that is written to is empty, the fullest shard, the last of several,
/// gives up its oldest record, until a slot is free.
pub proof fn fullest_shard_makes_room(store: StoreView, target: int, at: int)
    requires
        store.capacity > 0,
        store.live >= store.capacity,
        0 <= target < store.shards.len(),
        store.shards[target].records.len() == 0,
        0 <= at < store.shards.len(),
        store.shards[at].records.len() > 0,
        forall|j: int|
            0 <= j < store.shards.len() ==> (#[trigger] store.shards[j]).records.len()
                <= store.shards[at].records.len(),
        forall|j: int|
            at < j < store.shards.len() ==> (#[trigger] store.shards[j]).records.len()
                < store.shards[at].records.len(),
    ensures
        store.reserve(target) == (StoreView {
            shards: store.shards.update(
                at,
                ShardView {
                    oldest: store.shards[at].oldest + 1,
                    records: store.shards[at].records.skip(1),
                    ..store.shards[at]
                },
            ),
            live: (store.live - 1) as nat,
            capacity: store.capacity,
        }).reserve(target),
{
    lemma_fullest(store.shards);
    assert(is_fullest(store.shards, at));
    assert(any_live(store.shards));
    eviction_takes_the_oldest(store.shards[at], 1, Seq::empty());
}

/// Where no shard has a record to give up, no slot is truly taken: taking one leaves it
/// the only one.
pub proof fn empty_store_has_free_slots(store: StoreView, target: int)
    requires
        store.capacity > 0,
        store.live >= store.capacity,
        0 <= target < store.shards.len(),
        forall|i: int|
            0 <= i < store.shards.len() ==> (#[trigger] store.shards[i]).records.len() == 0,
    ensures
        store.reserve(target) == (StoreView { live: 1, ..store }),
{
}

/// Slots are taken one after the other, and then the records enter together, behind what
/// is left of their shard; a single record does the same. Only a batch for which there
/// are not enough slots at all goes in pieces, as large as can be.
pub proof fn batches_take_their_slots_first(store: StoreView, target: int, records: Seq<Record>)
    requires
        store.capacity > 0,
    ensures
        store.reserve_all(target, 0) == store,
        records.len() > 0 ==> store.reserve_all(target, records.len()) == store.reserve_all(
            target,
            (records.len() - 1) as nat,
        ).reserve(target),
        records.len() <= store.capacity ==> store.ingest_all_at(target, records) == ({
            let reserved = store.reserve_all(target, records.len());
            StoreView {
                shards: reserved.shards.update(
                    target,
                    ShardView {
                        records: reserved.shards[target].records + records,
                        ..reserved.shards[target]
                    },
                ),
                live: reserved.live,
                capacity: reserved.capacity,
            }
        }),
        records.len() > store.capacity ==> store.ingest_all_at(target, records)
            == store.ingest_all_at(target, records.take(store.capacity as int)).ingest_all_at(
            target,
            records.skip(store.capacity as int),
        ),
        records.len() == 1 ==> store.ingest_at(target, records[0]) == store.ingest_all_at(
            target,
            records,
        ),
{
    if records.len() == 1 {
        assert(records =~= seq![records[0]]);
        batch_of_one(store, target, records[0]);
    }
}

/// A partition whose shard exists: the first shard with its id gets its records, and no
/// shard is added.
pub proof fn known_partitions_have_their_shard(
    store: StoreView,
    id: u32,
    at: int,
    records: Seq<Record>,
)
    requires
        0 <= at < store.shards.len(),
        store.shards[at].id == id,
        forall|j: int| 0 <= j < at ==> (#[trigger] store.shards[j]).id != id,
    ensures
        store.reachable(id),
        store.grow(id) == store,
        store.next_of(id) == store.shards[at].oldest + store.shards[at].records.len(),
        store.ingest_partition_batch(id, Seq::empty()) == store,
        records.len() > 0 ==> store.ingest_partition_batch(id, records) == store.ingest_all_at(
            at,
            records,
        ),
        records.len() > 0 ==> store.ingest_partition(id, records[0]) == store.ingest_at(
            at,
            records[0],
        ),
{
    assert(is_first(store.shards, id, at));
    lemma_position(store.shards, id);
}

/// A partition without a shard gets one if its id is not below the number of shards, and
/// with it every partition in between: empty shards without a share, with their positions
/// as their ids, behind those that are there. Nothing else changes.
pub proof fn new_partitions_get_a_shard(store: StoreView, id: u32, records: Seq<Record>)
    requires
        store.shards.len() <= u32::MAX,
        forall|j: int| 0 <= j < store.shards.len() ==> (#[trigger] store.shards[j]).id != id,
    ensures
        store.reachable(id) <==> store.shards.len() <= id,
        store.ingest_partition_batch(id, Seq::empty()) == store,
        store.shards.len() <= id ==> {
            let grown = store.grow(id);
            &&& grown.live == store.live
            &&& grown.capacity == store.capacity
            &&& grown.shards.len() == id + 1
            &&& forall|i: int|
                0 <= i < store.shards.len() ==> #[trigger] grown.shards[i] == store.shards[i]
            &&& forall|i: int|
                store.shards.len() <= i <= id ==> #[trigger] grown.shards[i] == (ShardView {
                    id: i as u32,
                    capacity: 0,
                    oldest: 0,
                    records: Seq::empty(),
                })
            &&& store.next_of(id) == 0
            &&& records.len() > 0 ==> store.ingest_partition_batch(id, records)
                == grown.ingest_all_at(id as int, records)
            &&& records.len() > 0 ==> store.ingest_partition(id, records[0]) == grown.ingest_at(
                id as int,
                records[0],
            )
        },
{
    if store.shards.len() <= id {
        let grown = store.grow(id);
        let first = store.shards.len() as u32;
        let fresh = fresh_shards(first, (id - first + 1) as nat);
        assert forall|i: int| store.shards.len() <= i <= id implies #[trigger] grown.shards[i] == (
        ShardView { id: i as u32, capacity: 0, oldest: 0, records: Seq::empty() }) by {
            assert(grown.shards[i] == fresh[i - store.shards.len()]);
        }
        assert forall|j: int| 0 <= j < id implies (#[trigger] grown.shards[j]).id != id by {
            if j < store.shards.len() {
                assert(grown.shards[j] == store.shards[j]);
            }
        }
        assert(grown.shards[id as int].id == id);
        assert(is_first(grown.shards, id, id as int));
        lemma_position(grown.shards, id);
    }
}

/// A host is held by one shard only exactly if every record of the host that is anywhere
/// is there.
pub proof fn hosts_are_held_where_their_records_are(
    shards: Seq<ShardView>,
    at: int,
    host: Seq<char>,
)
    ensures
        only_at(shards, at, host) <==> forall|i: int, k: int|
            0 <= i < shards.len() && 0 <= k < shards[i].records.len() && (
            #[trigger] shards[i].records[k]).host == host ==> i == at,
{
    if only_at(shards, at, host) {
        assert forall|i: int, k: int|
            0 <= i < shards.len() && 0 <= k < shards[i].records.len() && (
            #[trigger] shards[i].records[k]).host == host implies i == at by {
            if i != at {
                assert(!holds_host(shards[i], host));
            }
        }
    }
    if forall|i: int, k: int|
        0 <= i < shards.len() && 0 <= k < shards[i].records.len() && (
        #[trigger] shards[i].records[k]).host == host ==> i == at {
        assert forall|i: int| 0 <= i < shards.len() && i != at implies !(#[trigger] holds_host(
            shards[i],
            host,
        )) by {
            if has_host(shards[i].records, host) {
                let k = choose|k: int|
                    0 <= k < shards[i].records.len() && (#[trigger] shards[i].records[k]).host
                        == host;
                assert(shards[i].records[k].host == host);
            }
        }
    }
}

/// A host may enter the shard of a partition exactly if every record of the host that the
/// store has lies in that shard.
pub proof fn admission_follows_the_records(store: StoreView, id: u32, at: int, host: Seq<char>)
    requires
        0 <= at < store.shards.len(),
        store.shards[at].id == id,
        forall|j: int| 0 <= j < at ==> (#[trigger] store.shards[j]).id != id,
    ensures
        store.admits(id, host) <==> forall|i: int, k: int|
            0 <= i < store.shards.len() && 0 <= k < store.shards[i].records.len() && (
            #[trigger] store.shards[i].records[k]).host == host ==> i == at,
{
    known_partitions_have_their_shard(store, id, at, Seq::empty());
    assert(is_first(store.shards, id, at));
    lemma_position(store.shards, id);
    hosts_are_held_where_their_records_are(store.shards, at, host);
}

/// A host may enter a shard that is yet to be added exactly if the store has no record of
/// the host.
pub proof fn new_shards_admit_new_hosts(store: StoreView, id: u32, host: Seq<char>)
    requires
        store.shards.len() <= id,
        forall|j: int| 0 <= j < store.shards.len() ==> (#[trigger] store.shards[j]).id != id,
    ensures
        store.admits(id, host) <==> forall|i: int, k: int|
            0 <= i < store.shards.len() && 0 <= k < store.shards[i].records.len() ==> (
            #[trigger] store.shards[i].records[k]).host != host,
{
    new_partitions_get_a_shard(store, id, Seq::empty());
    let grown = store.grow(id);
    assert forall|j: int| 0 <= j < id implies (#[trigger] grown.shards[j]).id != id by {
        if j < store.shards.len() {
            assert(grown.shards[j] == store.shards[j]);
        }
    }
    assert(grown.shards[id as int].id == id);
    assert(is_first(grown.shards, id, id as int));
    lemma_position(grown.shards, id);
    hosts_are_held_where_their_records_are(grown.shards, id as int, host);
    if store.admits(id, host) {
        assert forall|i: int, k: int|
            0 <= i < store.shards.len() && 0 <= k < store.shards[i].records.len() implies (
        #[trigger] store.shards[i].records[k]).host != host by {
            assert(grown.shards[i].records[k] == store.shards[i].records[k]);
        }
    }
    if forall|i: int, k: int|
        0 <= i < store.shards.len() && 0 <= k < store.shards[i].records.len() ==> (
        #[trigger] store.shards[i].records[k]).host != host {
        assert forall|i: int, k: int|
            0 <= i < grown.shards.len() && 0 <= k < grown.shards[i].records.len() && (
            #[trigger] grown.shards[i].records[k]).host == host implies i == id by {
            if i < store.shards.len() {
                assert(grown.shards[i].records[k] == store.shards[i].records[k]);
            }
        }
    }
}

/// Hosts are apart exactly if no two records of one host lie in different shards.
pub proof fn apart_hosts_share_no_records(shards: Seq<ShardView>)
    ensures
        hosts_apart(shards) <==> forall|i: int, j: int, k: int, l: int|
            0 <= i < shards.len() && 0 <= j < shards.len() && 0 <= k < shards[i].records.len()
                && 0 <= l < shards[j].records.len() && (#[trigger] shards[i].records[k]).host == (
            #[trigger] shards[j].records[l]).host ==> i == j,
{
    if hosts_apart(shards) {
        assert forall|i: int, j: int, k: int, l: int|
            0 <= i < shards.len() && 0 <= j < shards.len() && 0 <= k < shards[i].records.len()
                && 0 <= l < shards[j].records.len() && (#[trigger] shards[i].records[k]).host == (
            #[trigger] shards[j].records[l]).host implies i == j by {
            let host = shards[i].records[k].host;
            assert(holds_host(shards[i], host));
            assert(holds_host(shards[j], host));
        }
    }
    if forall|i: int, j: int, k: int, l: int|
        0 <= i < shards.len() && 0 <= j < shards.len() && 0 <= k < shards[i].records.len() && 0
            <= l < shards[j].records.len() && (#[trigger] shards[i].records[k]).host == (
        #[trigger] shards[j].records[l]).host ==> i == j {
        assert forall|i: int, j: int, host: Seq<char>|
            0 <= i < shards.len() && 0 <= j < shards.len() && #[trigger] holds_host(
                shards[i],
                host,
            ) && #[trigger] holds_host(shards[j], host) implies i == j by {
            let k = choose|k: int|
                0 <= k < shards[i].records.len() && (#[trigger] shards[i].records[k]).host == host;
            let l = choose|l: int|
                0 <= l < shards[j].records.len() && (#[trigger] shards[j].records[l]).host == host;
            assert(shards[i].records[k].host == shards[j].records[l].host);
        }
    }
}

/// A record enters the shard that the hash of its host selects.
pub proof fn records_enter_the_shard_of_their_host(store: StoreView, record: Record)
    requires
        store.shards.len() > 0,
    ensures
        store.ingest(record) == store.ingest_at(store.home(record.host), record),
        0 <= store.home(record.host) < store.shards.len(),
        ({
            let hash = DefaultHasher::spec_finish(str_hash_writes(record.host)) as usize;
            (hash - store.home(record.host)) % (store.shards.len() as int) == 0
        }),
{
    hashes_select_partitions(record.host, store.shards.len());
}

/// The records of all shards are those of the first, then those of the second, and so on.
pub proof fn all_records_are_those_of_the_shards(shards: Seq<ShardView>)
    ensures
        all_records(shards) == shards.map_values(|s: ShardView| s.records).flatten(),
    decreases shards.len(),
{
    let lists = shards.map_values(|s: ShardView| s.records);
    lists.lemma_flatten_and_flatten_alt_are_equivalent();
    if shards.len() > 0 {
        let rest = shards.drop_last();
        let fewer = rest.map_values(|s: ShardView| s.records);
        all_records_are_those_of_the_shards(rest);
        fewer.lemma_flatten_and_flatten_alt_are_equivalent();
        assert(lists.drop_last() =~= fewer);
    }
}

/// A query asks every record of every shard, and finds those that match, and no others:
/// by service, by host, or by both, with both ends of the time range included.
pub proof fn queries_find_what_matches(
    store: StoreView,
    service: Seq<char>,
    host: Seq<char>,
    t1: i64,
    t2: i64,
)
    ensures
        ({
            let all = store.shards.map_values(|s: ShardView| s.records).flatten();
            &&& store.by_service(service, t1, t2) == all.filter(
                |r: Record| r.service == service && t1 <= r.timestamp <= t2,
            )
            &&& store.by_host(host, t1, t2) == all.filter(
                |r: Record| r.host == host && t1 <= r.timestamp <= t2,
            )
            &&& store.by_service_and_host(service, host, t1, t2) == all.filter(
                |r: Record| r.service == service && r.host == host && t1 <= r.timestamp <= t2,
            )
        }),
{
    all_records_are_those_of_the_shards(store.shards);
    let by_service = |r: Record| r.service == service && t1 <= r.timestamp <= t2;
    let by_host = |r: Record| r.host == host && t1 <= r.timestamp <= t2;
    let by_both = |r: Record|
        r.service == service && r.host == host && t1 <= r.timestamp <= t2;
    assert(within(has(Dimension::Service, service), t1, t2) =~= by_service);
    assert(within(has(Dimension::Host, host), t1, t2) =~= by_host);
    assert(within(both(has(Dimension::Service, service), has(Dimension::Host, host)), t1, t2)
        =~= by_both);
}

/// An answer has every matching record as often as it matches, and nothing else, in the
/// order of time.
pub proof fn answers_are_complete_and_in_order(found: Seq<Record>, matching: Seq<Record>)
    ensures
        answers(found, matching) <==> {
            &&& forall|r: Record|
                #[trigger] found.to_multiset().count(r) == matching.to_multiset().count(r)
            &&& forall|i: int, j: int|
                0 <= i <= j < found.len() ==> (#[trigger] found[i]).timestamp <= (
                #[trigger] found[j]).timestamp
        },
{
    if forall|r: Record|
        #[trigger] found.to_multiset().count(r) == matching.to_multiset().count(r) {
        assert(found.to_multiset() =~= matching.to_multiset());
    }
}

/// A sum adds up all its values, from the first to the last.
pub proof fn sums_add_all_values(values: Seq<nat>)
    ensures
        sum(values) == values.fold_left(0nat, |total: nat, value: nat| total + value),
    decreases values.len(),
{
    if values.len() > 0 {
        sums_add_all_values(values.drop_last());
    }
}

/// What is summed up over the shards: the number of live records of each, its share, the
/// offset it will give out next, and how far its index is behind that.
pub proof fn figures_are_those_of_the_shards(
    shards: Seq<ShardView>,
    positions: Seq<nat>,
    i: int,
)
    requires
        0 <= i < shards.len(),
    ensures
        lens(shards).len() == shards.len(),
        lens(shards)[i] == shards[i].records.len(),
        capacities(shards).len() == shards.len(),
        capacities(shards)[i] == shards[i].capacity,
        next_offsets(shards).len() == shards.len(),
        next_offsets(shards)[i] == shards[i].oldest + shards[i].records.len(),
        lags(shards, positions).len() == shards.len(),
        positions[i] <= shards[i].oldest + shards[i].records.len() ==> positions[i] + lags(
            shards,
            positions,
        )[i] == shards[i].oldest + shards[i].records.len(),
{
}

/// A new store has as many shards as asked for, all empty, with their positions as their
/// ids and equal shares of the capacity, rounded down.
pub proof fn new_stores_share_equally(capacity: usize, shard_count: nat, i: int)
    requires
        0 <= i < shard_count <= 0x1_0000_0000,
    ensures
        StoreView::with_shards(capacity, shard_count).shards.len() == shard_count,
        StoreView::with_shards(capacity, shard_count).live == 0,
        StoreView::with_shards(capacity, shard_count).capacity == capacity,
        ({
            let shard = StoreView::with_shards(capacity, shard_count).shards[i];
            &&& shard.id == i
            &&& shard.oldest == 0
            &&& shard.records.len() == 0
            &&& shard.capacity * shard_count <= capacity < (shard.capacity + 1) * shard_count
        }),
{
    let c = capacity as int;
    let n = shard_count as int;
    let share = c / n;
    vstd::arithmetic::div_mod::lemma_fundamental_div_mod(c, n);
    vstd::arithmetic::div_mod::lemma_mod_bound(c, n);
    assert(0 <= share <= c && share * n <= c < (share + 1) * n) by (nonlinear_arith)
        requires
            c == n * share + c % n,
            0 <= c % n < n,
            n > 0,
            c >= 0,
    ;
}

/// A snapshot keeps of a shard its id, its share, the offset it will give out next and its
/// live records, and restores just that.
pub proof fn images_keep_the_shard(shards: Seq<ShardView>, i: int)
    requires
        0 <= i < shards.len(),
        shards[i].oldest + shards[i].records.len() <= u64::MAX,
    ensures
        images(shards).len() == shards.len(),
        images(shards)[i] == (ShardImage {
            id: shards[i].id,
            capacity: shards[i].capacity,
            next_offset: (shards[i].oldest + shards[i].records.len()) as u64,
            records: shards[i].records,
        }),
        restored_views(images(shards)).len() == shards.len(),
        restored_views(images(shards))[i] == shards[i],
{
}

/// A restored store has its shards in the order of their ids, each shard of the snapshot
/// as it was kept, those with the same id in the order of the snapshot. Its slots are
/// the sum of the shares, and as many are taken as there are records.
pub proof fn restored_stores_have_every_shard(
    kept: Seq<ShardImage>,
    store: StoreView,
    id: u32,
)
    requires
        restores(kept, store),
    ensures
        forall|i: int, j: int|
            0 <= i <= j < store.shards.len() ==> (#[trigger] store.shards[i]).id <= (
            #[trigger] store.shards[j]).id,
        store.shards.filter(|s: ShardView| s.id == id) == kept.map_values(
            |image: ShardImage|
                ShardView {
                    id: image.id,
                    capacity: image.capacity,
                    oldest: (image.next_offset - image.records.len()) as nat,
                    records: image.records,
                },
        ).filter(|s: ShardView| s.id == id),
        store.live == lens(store.shards).fold_left(0nat, |total: nat, value: nat| total + value),
        store.capacity == capacities(store.shards).fold_left(
            0nat,
            |total: nat, value: nat| total + value,
        ),
{
    let p = |s: ShardView| s.id == id;
    assert(id_is(id) =~= p);
    assert(store.shards.filter(id_is(id)) == restored_views(kept).filter(id_is(id)));
    let f = |image: ShardImage|
        ShardView {
            id: image.id,
            capacity: image.capacity,
            oldest: (image.next_offset - image.records.len()) as nat,
            records: image.records,
        };
    assert(restored_views(kept) =~= kept.map_values(f));
    sums_add_all_values(lens(store.shards));
    sums_add_all_values(capacities(store.shards));
}

/// A shard that was trimmed has lost nothing but its oldest records: what is left is the end
/// of what it held, at the same offsets.
pub proof fn trimmed_shards_keep_their_end(before: ShardView, after: ShardView)
    ensures
        trimmed(before, after) <==> {
            let gone = before.records.len() - after.records.len();
            &&& gone >= 0
            &&& after.id == before.id
            &&& after.capacity == before.capacity
            &&& after.oldest == before.oldest + gone
            &&& after.records == before.records.skip(gone)
        },
{
    let gone = before.records.len() - after.records.len();
    if trimmed(before, after) {
        let count = choose|count: nat| after == #[trigger] before.evict(count);
        eviction_takes_the_oldest(before, count, Seq::empty());
        if count > before.records.len() {
            assert(before.records.skip(gone) =~= Seq::empty());
        }
    }
    if gone >= 0 && after.id == before.id && after.capacity == before.capacity && after.oldest
        == before.oldest + gone && after.records == before.records.skip(gone) {
        eviction_takes_the_oldest(before, gone as nat, Seq::empty());
        assert(after =~= before.evict(gone as nat));
    }
}

/// The shards of a snapshot can be restored exactly if none has more records than it has
/// given out offsets.
pub proof fn restorable_shards_have_their_offsets(kept: Seq<ShardImage>)
    ensures
        restorable(kept) <==> forall|i: int|
            0 <= i < kept.len() ==> (#[trigger] kept[i]).records.len() <= kept[i].next_offset,
{
}

} // verus!
