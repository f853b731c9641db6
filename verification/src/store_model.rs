//! What a store holds, what its operations do to it, and the laws that follow.

use crate::log_entry::Record;
use crate::offsets::{both, has, within, Dimension};
use crate::partition::ShardView;
use crate::snapshot::ShardImage;
use crate::routing::partition_of;
use crate::totals::sum;
use vstd::prelude::*;

verus! {

/// What a store holds.
#[verifier::ext_equal]
pub struct StoreView {
    pub shards: Seq<ShardView>,
    /// The number of slots that are taken.
    pub live: nat,
    /// The number of slots that there are.
    pub capacity: nat,
}

/// The number of live records of each shard.
pub open spec fn lens(shards: Seq<ShardView>) -> Seq<nat> {
    shards.map_values(|s: ShardView| s.records.len())
}

/// The offset that the next record of each shard will get.
pub open spec fn next_offsets(shards: Seq<ShardView>) -> Seq<nat> {
    shards.map_values(|s: ShardView| s.next())
}

/// How many offsets of each shard lie between the indexer position and the next
/// record.
pub open spec fn lags(shards: Seq<ShardView>, positions: Seq<nat>) -> Seq<nat> {
    Seq::new(shards.len(), |i: int| (shards[i].next() - positions[i]) as nat)
}

/// The capacity share of each shard.
pub open spec fn capacities(shards: Seq<ShardView>) -> Seq<nat> {
    shards.map_values(|s: ShardView| s.capacity as nat)
}

/// The live records of all shards, shard after shard.
pub open spec fn all_records(shards: Seq<ShardView>) -> Seq<Record>
    decreases shards.len(),
{
    if shards.len() == 0 {
        Seq::empty()
    } else {
        all_records(shards.drop_last()) + shards.last().records
    }
}

/// Some shard holds a record.
pub open spec fn any_live(shards: Seq<ShardView>) -> bool {
    exists|i: int| 0 <= i < shards.len() && (#[trigger] shards[i]).records.len() > 0
}

/// No shard holds more records than the one at `i`, and none after it as many.
pub open spec fn is_fullest(shards: Seq<ShardView>, i: int) -> bool {
    &&& 0 <= i < shards.len()
    &&& forall|j: int|
        0 <= j < shards.len() ==> (#[trigger] shards[j]).records.len() <= shards[i].records.len()
    &&& forall|j: int|
        i < j < shards.len() ==> (#[trigger] shards[j]).records.len() < shards[i].records.len()
}

/// The position of the fullest shard, the last one where several are.
pub open spec fn fullest(shards: Seq<ShardView>) -> int {
    choose|i: int| is_fullest(shards, i)
}

/// Some shard has the given id.
pub open spec fn has_shard(shards: Seq<ShardView>, id: u32) -> bool {
    exists|i: int| 0 <= i < shards.len() && (#[trigger] shards[i]).id == id
}

/// The shard at `i` is the first with the given id.
pub open spec fn is_first(shards: Seq<ShardView>, id: u32, i: int) -> bool {
    &&& 0 <= i < shards.len()
    &&& shards[i].id == id
    &&& forall|j: int| 0 <= j < i ==> (#[trigger] shards[j]).id != id
}

/// The position of the first shard with the given id.
pub open spec fn position(shards: Seq<ShardView>, id: u32) -> int {
    choose|i: int| is_first(shards, id, i)
}

/// `count` empty shards without a capacity share, with consecutive ids.
pub open spec fn fresh_shards(first_id: u32, count: nat) -> Seq<ShardView> {
    Seq::new(count, |k: int| ShardView::empty((first_id + k) as u32, 0))
}

/// Empty shards with equal capacity shares, each with its position as its id.
pub open spec fn equal_shards(count: nat, capacity: usize) -> Seq<ShardView> {
    Seq::new(count, |k: int| ShardView::empty(k as u32, capacity))
}

/// Some record is of the host.
pub open spec fn has_host(records: Seq<Record>, host: Seq<char>) -> bool {
    exists|k: int| 0 <= k < records.len() && (#[trigger] records[k]).host == host
}

/// A shard holds a record of the host.
pub open spec fn holds_host(shard: ShardView, host: Seq<char>) -> bool {
    has_host(shard.records, host)
}

/// No host has records in two shards.
pub open spec fn hosts_apart(shards: Seq<ShardView>) -> bool {
    forall|i: int, j: int, host: Seq<char>|
        0 <= i < shards.len() && 0 <= j < shards.len() && #[trigger] holds_host(shards[i], host)
            && #[trigger] holds_host(shards[j], host) ==> i == j
}

/// No shard but the one at `at` holds a record of the host.
pub open spec fn only_at(shards: Seq<ShardView>, at: int, host: Seq<char>) -> bool {
    forall|i: int| 0 <= i < shards.len() && i != at ==> !(#[trigger] holds_host(shards[i], host))
}

/// A shard after it has lost some of its oldest records.
pub open spec fn trimmed(before: ShardView, after: ShardView) -> bool {
    exists|count: nat| after == #[trigger] before.evict(count)
}

/// What a snapshot keeps of each shard.
pub open spec fn images(shards: Seq<ShardView>) -> Seq<ShardImage> {
    shards.map_values(|s: ShardView| s.image())
}

/// The shards that a snapshot restores, in its order.
pub open spec fn restored_views(images: Seq<ShardImage>) -> Seq<ShardView> {
    images.map_values(|image: ShardImage| ShardView::restored(image))
}

/// No shard has more live records than it ever had offsets.
pub open spec fn restorable(images: Seq<ShardImage>) -> bool {
    forall|i: int|
        0 <= i < images.len() ==> (#[trigger] images[i]).records.len() <= images[i].next_offset
}

/// The shards come in nondecreasing id order.
pub open spec fn sorted_by_id(shards: Seq<ShardView>) -> bool {
    forall|i: int, j: int|
        0 <= i <= j < shards.len() ==> (#[trigger] shards[i]).id <= (#[trigger] shards[j]).id
}

pub open spec fn id_is(id: u32) -> spec_fn(ShardView) -> bool {
    |s: ShardView| s.id == id
}

/// `sorted` holds the shards of `shards` in nondecreasing id order, and shards
/// with the same id in the order in which `shards` has them. There is exactly one
/// such sequence.
pub open spec fn is_id_sort(shards: Seq<ShardView>, sorted: Seq<ShardView>) -> bool {
    &&& sorted_by_id(sorted)
    &&& forall|id: u32| #[trigger] sorted.filter(id_is(id)) == shards.filter(id_is(id))
}

/// The store that a snapshot restores: its shards in id order, with every live
/// record accounted for, under the sum of the shards' shares.
pub open spec fn restores(images: Seq<ShardImage>, store: StoreView) -> bool {
    &&& is_id_sort(restored_views(images), store.shards)
    &&& store.accounted()
    &&& store.capacity == sum(capacities(store.shards))
}

impl StoreView {
    pub open spec fn with_shards(capacity: usize, shard_count: nat) -> StoreView {
        StoreView {
            shards: equal_shards(shard_count, (capacity as nat / shard_count) as usize),
            live: 0,
            capacity: capacity as nat,
        }
    }

    /// The taken slots are those of the live records.
    pub open spec fn accounted(self) -> bool {
        self.live == sum(lens(self.shards))
    }

    /// Every record lies in the shard that owns its host.
    pub open spec fn routed(self) -> bool {
        forall|i: int, k: int|
            0 <= i < self.shards.len() && 0 <= k < self.shards[i].records.len() ==> partition_of(
                (#[trigger] self.shards[i].records[k]).host,
                self.shards.len(),
            ) == i
    }

    /// The shard at `at` gives up its oldest record, and a slot comes free.
    pub open spec fn shed(self, at: int) -> StoreView {
        StoreView {
            shards: self.shards.update(at, self.shards[at].evict(1)),
            live: (self.live - 1) as nat,
            ..self
        }
    }

    /// A slot is taken for a record that will enter the shard at `target`. While
    /// no slot is free, the target shard sheds its oldest record, or, if it has
    /// none, the fullest shard does. With no record left to shed, all slots are
    /// free.
    pub open spec fn reserve(self, target: int) -> StoreView
        decreases self.live,
        when self.capacity > 0
    {
        if self.live < self.capacity {
            StoreView { live: self.live + 1, ..self }
        } else if self.shards[target].records.len() > 0 {
            self.shed(target).reserve(target)
        } else if any_live(self.shards) {
            self.shed(fullest(self.shards)).reserve(target)
        } else {
            StoreView { live: 1, ..self }
        }
    }

    /// Records enter the shard at `target` behind those it has.
    pub open spec fn append(self, target: int, records: Seq<Record>) -> StoreView {
        StoreView {
            shards: self.shards.update(target, self.shards[target].push_all(records)),
            ..self
        }
    }

    /// A record enters the shard at `target`.
    pub open spec fn ingest_at(self, target: int, record: Record) -> StoreView {
        self.reserve(target).append(target, seq![record])
    }

    /// `count` slots are taken for records that will enter the shard at `target`,
    /// before any of them does.
    pub open spec fn reserve_all(self, target: int, count: nat) -> StoreView
        decreases count,
    {
        if count == 0 {
            self
        } else {
            self.reserve_all(target, (count - 1) as nat).reserve(target)
        }
    }

    /// Records enter the shard at `target` together: first a slot is taken for each of
    /// them, then all are appended, so that none displaces another.
    pub open spec fn ingest_at_once(self, target: int, records: Seq<Record>) -> StoreView {
        self.reserve_all(target, records.len()).append(target, records)
    }

    /// Records enter the shard at `target`: together if there are as many slots, and
    /// otherwise in pieces of as many as there are slots, piece after piece.
    pub open spec fn ingest_all_at(self, target: int, records: Seq<Record>) -> StoreView
        decreases records.len(),
    {
        if records.len() <= self.capacity || self.capacity == 0 {
            self.ingest_at_once(target, records)
        } else {
            self.ingest_at_once(target, records.take(self.capacity as int)).ingest_all_at(
                target,
                records.skip(self.capacity as int),
            )
        }
    }

    /// The position of the shard that owns a host.
    pub open spec fn home(self, host: Seq<char>) -> int {
        partition_of(host, self.shards.len()) as int
    }

    /// A record enters the shard that owns its host.
    pub open spec fn ingest(self, record: Record) -> StoreView {
        self.ingest_at(self.home(record.host), record)
    }

    /// A partition has a shard, or shards up to its id can be added.
    pub open spec fn reachable(self, id: u32) -> bool {
        has_shard(self.shards, id) || self.shards.len() as u32 <= id
    }

    /// Shards are added up to the given id if none has that id yet.
    pub open spec fn grow(self, id: u32) -> StoreView {
        if has_shard(self.shards, id) {
            self
        } else {
            let first = self.shards.len() as u32;
            StoreView {
                shards: self.shards + fresh_shards(first, (id - first + 1) as nat),
                ..self
            }
        }
    }

    /// A record enters the shard of a partition.
    pub open spec fn ingest_partition(self, id: u32, record: Record) -> StoreView {
        let grown = self.grow(id);
        grown.ingest_at(position(grown.shards, id), record)
    }

    /// Records enter the shard of a partition. Without records nothing happens.
    pub open spec fn ingest_partition_batch(self, id: u32, records: Seq<Record>) -> StoreView {
        if records.len() == 0 {
            self
        } else {
            let grown = self.grow(id);
            grown.ingest_all_at(position(grown.shards, id), records)
        }
    }

    /// A record of the host may enter the shard of a partition: no other shard holds
    /// one.
    pub open spec fn admits(self, id: u32, host: Seq<char>) -> bool {
        let grown = self.grow(id);
        only_at(grown.shards, position(grown.shards, id), host)
    }

    /// The offset that the next record of a partition will get.
    pub open spec fn next_of(self, id: u32) -> nat {
        let grown = self.grow(id);
        grown.shards[position(grown.shards, id)].next()
    }

    /// The records of a service with a timestamp in `[t1, t2]`.
    pub open spec fn by_service(self, service: Seq<char>, t1: i64, t2: i64) -> Seq<Record> {
        all_records(self.shards).filter(within(has(Dimension::Service, service), t1, t2))
    }

    /// The records of a host with a timestamp in `[t1, t2]`.
    pub open spec fn by_host(self, host: Seq<char>, t1: i64, t2: i64) -> Seq<Record> {
        all_records(self.shards).filter(within(has(Dimension::Host, host), t1, t2))
    }

    /// The records of a service on a host with a timestamp in `[t1, t2]`.
    pub open spec fn by_service_and_host(
        self,
        service: Seq<char>,
        host: Seq<char>,
        t1: i64,
        t2: i64,
    ) -> Seq<Record> {
        all_records(self.shards).filter(
            within(
                both(has(Dimension::Service, service), has(Dimension::Host, host)),
                t1,
                t2,
            ),
        )
    }
}

/// The records come in nondecreasing timestamp order.
pub open spec fn in_time_order(records: Seq<Record>) -> bool {
    forall|i: int, j: int|
        0 <= i <= j < records.len() ==> (#[trigger] records[i]).timestamp <= (
        #[trigger] records[j]).timestamp
}

/// `found` holds exactly the matching records, in nondecreasing timestamp order.
/// The order of records with equal timestamps is left open.
pub open spec fn answers(found: Seq<Record>, matching: Seq<Record>) -> bool {
    &&& in_time_order(found)
    &&& found.to_multiset() == matching.to_multiset()
}

/// A store with a live record has exactly one fullest shard.
pub proof fn lemma_fullest(shards: Seq<ShardView>)
    requires
        shards.len() > 0,
    ensures
        is_fullest(shards, fullest(shards)),
        forall|i: int| #[trigger] is_fullest(shards, i) ==> i == fullest(shards),
        any_live(shards) ==> shards[fullest(shards)].records.len() > 0,
    decreases shards.len(),
{
    let last = shards.len() - 1;
    if shards.len() == 1 {
        assert(is_fullest(shards, 0));
    } else {
        let rest = shards.drop_last();
        lemma_fullest(rest);
        let best = fullest(rest);
        assert forall|j: int| 0 <= j < rest.len() implies (#[trigger] shards[j]).records.len()
            <= shards[best].records.len() by {
            assert(rest[j].records.len() <= rest[best].records.len());
        }
        if shards[last].records.len() >= shards[best].records.len() {
            assert(is_fullest(shards, last));
        } else {
            assert forall|j: int| best < j < shards.len() implies (
            #[trigger] shards[j]).records.len() < shards[best].records.len() by {
                if j < last {
                    assert(rest[j].records.len() < rest[best].records.len());
                }
            }
            assert(is_fullest(shards, best));
        }
    }
}

pub proof fn lemma_position(shards: Seq<ShardView>, id: u32)
    requires
        has_shard(shards, id),
    ensures
        is_first(shards, id, position(shards, id)),
        forall|i: int| #[trigger] is_first(shards, id, i) ==> i == position(shards, id),
    decreases shards.len(),
{
    let found = choose|i: int| 0 <= i < shards.len() && (#[trigger] shards[i]).id == id;
    let rest = shards.drop_last();
    if has_shard(rest, id) {
        lemma_position(rest, id);
        let first = position(rest, id);
        assert forall|j: int| 0 <= j < first implies (#[trigger] shards[j]).id != id by {
            assert(rest[j].id != id);
        }
        assert(rest[first].id == id);
        assert(is_first(shards, id, first));
    } else {
        assert forall|j: int| 0 <= j < shards.len() - 1 implies (#[trigger] shards[j]).id
            != id by {
            assert(rest[j] == shards[j]);
        }
        assert(is_first(shards, id, shards.len() - 1));
    }
}

/// Eviction keeps a shard's id, its share and its next offset, and evicting
/// twice is evicting once.
pub proof fn lemma_evict(shard: ShardView, first: nat, second: nat)
    ensures
        shard.evict(first).id == shard.id,
        shard.evict(first).capacity == shard.capacity,
        shard.evict(first).next() == shard.next(),
        shard.evict(first).evict(second) == shard.evict(first + second),
        shard.evict(0) == shard,
{
    assert(shard.evict(first).evict(second) =~= shard.evict(first + second));
    assert(shard.evict(0) =~= shard);
}

/// Eviction is oldest-first: when a slot is taken, each shard keeps its newest
/// records, at their offsets and in their order, and nothing but a shard's
/// oldest records is lost.
pub proof fn reserve_drops_only_oldest(store: StoreView, target: int)
    requires
        store.capacity > 0,
        0 <= target < store.shards.len(),
    ensures
        store.reserve(target).shards.len() == store.shards.len(),
        store.reserve(target).capacity == store.capacity,
        forall|i: int|
            0 <= i < store.shards.len() ==> trimmed(
                store.shards[i],
                #[trigger] store.reserve(target).shards[i],
            ),
    decreases store.live,
{
    let after = store.reserve(target);
    if store.live < store.capacity || !any_live(store.shards) {
        if store.live >= store.capacity && store.shards[target].records.len() > 0 {
            assert(any_live(store.shards));
        }
        assert forall|i: int| 0 <= i < store.shards.len() implies trimmed(
            store.shards[i],
            #[trigger] after.shards[i],
        ) by {
            lemma_evict(store.shards[i], 0, 0);
            assert(after.shards[i] == store.shards[i].evict(0));
        }
    } else {
        lemma_fullest(store.shards);
        let at = if store.shards[target].records.len() > 0 {
            target
        } else {
            fullest(store.shards)
        };
        let step = store.shed(at);
        reserve_drops_only_oldest(step, target);
        assert forall|i: int| 0 <= i < store.shards.len() implies trimmed(
            store.shards[i],
            #[trigger] after.shards[i],
        ) by {
            let count = choose|count: nat|
                after.shards[i] == #[trigger] step.shards[i].evict(count);
            let lost: nat = if i == at {
                1
            } else {
                0
            };
            lemma_evict(store.shards[i], lost, count);
            assert(step.shards[i] == store.shards[i].evict(lost));
            assert(after.shards[i] == store.shards[i].evict(lost + count));
        }
    }
}

/// Evicting and then appending is appending and then evicting.
proof fn lemma_evict_then_push(shard: ShardView, count: nat, records: Seq<Record>)
    ensures
        trimmed(shard.push_all(records), shard.evict(count).push_all(records)),
{
    let gone = if count <= shard.records.len() {
        count
    } else {
        shard.records.len()
    };
    assert(shard.evict(count).push_all(records) =~= shard.push_all(records).evict(gone));
}

/// Taking many slots, too, drops nothing but each shard's oldest records.
pub proof fn reserve_all_drops_only_oldest(store: StoreView, target: int, count: nat)
    requires
        store.capacity > 0,
        0 <= target < store.shards.len(),
    ensures
        store.reserve_all(target, count).shards.len() == store.shards.len(),
        store.reserve_all(target, count).capacity == store.capacity,
        forall|i: int|
            0 <= i < store.shards.len() ==> trimmed(
                store.shards[i],
                #[trigger] store.reserve_all(target, count).shards[i],
            ),
    decreases count,
{
    let after = store.reserve_all(target, count);
    if count == 0 {
        assert forall|i: int| 0 <= i < store.shards.len() implies trimmed(
            store.shards[i],
            #[trigger] after.shards[i],
        ) by {
            lemma_evict(store.shards[i], 0, 0);
            assert(after.shards[i] == store.shards[i].evict(0));
        }
    } else {
        let before = store.reserve_all(target, (count - 1) as nat);
        reserve_all_drops_only_oldest(store, target, (count - 1) as nat);
        reserve_drops_only_oldest(before, target);
        assert forall|i: int| 0 <= i < store.shards.len() implies trimmed(
            store.shards[i],
            #[trigger] after.shards[i],
        ) by {
            assert(trimmed(store.shards[i], before.shards[i]));
            lemma_trimmed_twice(store.shards[i], before.shards[i], after.shards[i]);
        }
    }
}

/// The first piece of a batch of at least as many records as there are slots enters on
/// its own, and no records change nothing.
pub proof fn lemma_first_piece(store: StoreView, target: int, records: Seq<Record>)
    requires
        0 < store.capacity <= records.len(),
        0 <= target < store.shards.len(),
    ensures
        store.ingest_all_at(target, records) == store.ingest_at_once(
            target,
            records.take(store.capacity as int),
        ).ingest_all_at(target, records.skip(store.capacity as int)),
        store.ingest_at_once(target, records.take(store.capacity as int)) == store.ingest_all_at(
            target,
            records.take(store.capacity as int),
        ),
        store.ingest_at_once(target, records.take(store.capacity as int)).capacity
            == store.capacity,
        store.ingest_at_once(target, records.take(store.capacity as int)).shards.len()
            == store.shards.len(),
{
    let size = store.capacity as int;
    let piece = store.ingest_at_once(target, records.take(size));
    reserve_all_drops_only_oldest(store, target, records.take(size).len());
    if records.len() == size {
        assert(records.take(size) =~= records);
        assert(records.skip(size) =~= Seq::empty());
        lemma_no_records(piece, target);
    }
}

/// A batch of no records changes nothing.
pub proof fn lemma_no_records(store: StoreView, target: int)
    requires
        0 <= target < store.shards.len(),
    ensures
        store.ingest_all_at(target, Seq::empty()) == store,
{
    assert(store.shards[target].push_all(Seq::empty()) =~= store.shards[target]);
    assert(store.append(target, Seq::empty()) =~= store);
}

/// A batch drops nothing but oldest records: its own shard keeps the newest of what
/// it held and of the batch behind it, in their order and at their offsets, and
/// every other shard keeps the newest of what it held.
pub proof fn batch_drops_only_oldest(store: StoreView, target: int, records: Seq<Record>)
    requires
        store.capacity > 0,
        0 <= target < store.shards.len(),
    ensures
        store.ingest_all_at(target, records).shards.len() == store.shards.len(),
        store.ingest_all_at(target, records).capacity == store.capacity,
        trimmed(
            store.shards[target].push_all(records),
            store.ingest_all_at(target, records).shards[target],
        ),
        forall|i: int|
            0 <= i < store.shards.len() && i != target ==> trimmed(
                store.shards[i],
                #[trigger] store.ingest_all_at(target, records).shards[i],
            ),
    decreases records.len(),
{
    let after = store.ingest_all_at(target, records);
    if records.len() <= store.capacity {
        let reserved = store.reserve_all(target, records.len());
        reserve_all_drops_only_oldest(store, target, records.len());
        assert(trimmed(store.shards[target], reserved.shards[target]));
        let count = choose|count: nat|
            reserved.shards[target] == #[trigger] store.shards[target].evict(count);
        lemma_evict_then_push(store.shards[target], count, records);
        assert forall|i: int| 0 <= i < store.shards.len() && i != target implies trimmed(
            store.shards[i],
            #[trigger] after.shards[i],
        ) by {
            assert(after.shards[i] == reserved.shards[i]);
        }
    } else {
        let size = store.capacity as int;
        let first = records.take(size);
        let rest = records.skip(size);
        let step = store.ingest_all_at(target, first);
        lemma_first_piece(store, target, records);
        batch_drops_only_oldest(store, target, first);
        batch_drops_only_oldest(step, target, rest);
        let whole = store.shards[target].push_all(first);
        let count = choose|count: nat| step.shards[target] == #[trigger] whole.evict(count);
        lemma_evict_then_push(whole, count, rest);
        assert(whole.push_all(rest) =~= store.shards[target].push_all(records)) by {
            assert(first + rest =~= records);
        }
        lemma_trimmed_twice(
            store.shards[target].push_all(records),
            step.shards[target].push_all(rest),
            after.shards[target],
        );
        assert forall|i: int| 0 <= i < store.shards.len() && i != target implies trimmed(
            store.shards[i],
            #[trigger] after.shards[i],
        ) by {
            assert(trimmed(store.shards[i], step.shards[i]));
            lemma_trimmed_twice(store.shards[i], step.shards[i], after.shards[i]);
        }
    }
}

/// A shard that is trimmed twice is trimmed.
proof fn lemma_trimmed_twice(first: ShardView, second: ShardView, third: ShardView)
    requires
        trimmed(first, second),
        trimmed(second, third),
    ensures
        trimmed(first, third),
{
    let a = choose|count: nat| second == #[trigger] first.evict(count);
    let b = choose|count: nat| third == #[trigger] second.evict(count);
    lemma_evict(first, a, b);
    assert(third == first.evict(a + b));
}

/// What a batch leaves of each shard's id, share and offsets: the batch's own shard
/// has given out one offset for each of its records, the others none.
pub proof fn batch_moves_offsets(store: StoreView, target: int, records: Seq<Record>)
    requires
        store.capacity > 0,
        0 <= target < store.shards.len(),
    ensures
        forall|i: int|
            0 <= i < store.shards.len() ==> {
                let after = #[trigger] store.ingest_all_at(target, records).shards[i];
                &&& after.id == store.shards[i].id
                &&& after.capacity == store.shards[i].capacity
                &&& after.next() == store.shards[i].next() + if i == target {
                    records.len()
                } else {
                    0
                }
            },
{
    batch_drops_only_oldest(store, target, records);
    let after = store.ingest_all_at(target, records);
    lemma_trimmed(store.shards[target].push_all(records), after.shards[target]);
    assert forall|i: int| 0 <= i < store.shards.len() && i != target implies {
        let shard = #[trigger] after.shards[i];
        &&& shard.id == store.shards[i].id
        &&& shard.capacity == store.shards[i].capacity
        &&& shard.next() == store.shards[i].next()
    } by {
        lemma_trimmed(store.shards[i], after.shards[i]);
    }
}

/// A batch of one record is that record.
pub proof fn batch_of_one(store: StoreView, target: int, record: Record)
    ensures
        store.ingest_all_at(target, seq![record]) == store.ingest_at(target, record),
{
    assert(store.reserve_all(target, 0) == store);
    assert(store.reserve_all(target, 1) == store.reserve(target));
}

/// A trimmed shard keeps its id, its share and its next offset.
pub proof fn lemma_trimmed(before: ShardView, after: ShardView)
    requires
        trimmed(before, after),
    ensures
        after.id == before.id,
        after.capacity == before.capacity,
        after.next() == before.next(),
{
    let count = choose|count: nat| after == #[trigger] before.evict(count);
    lemma_evict(before, count, 0);
}

} // verus!
