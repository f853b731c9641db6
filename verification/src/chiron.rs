//! The store: partition-local shards under one capacity budget.

use crate::kafka_offsets::{apply_topics, KafkaOffsets};
use crate::log_entry::{entry_records, shared_records, LogEntry, Record, SharedLogEntry};
use crate::offsets::{has, within, Dimension};
use crate::partition::{PartitionShard, ShardView};
use crate::routing::partition_for_host;
use crate::snapshot::{
    decode_snapshot, encode_snapshot, image_capacities, restored_images, snapshot_images,
    RestoredShard, Snapshot, SnapshotError, SnapshotShard,
};
use crate::snapshot_laws::{image_lens, loaded_shards_are_bounded};
use crate::sorting::{
    is_stable_sort, key_is, lemma_map_filter, lemma_map_multiset, stable_sort, with_key, Keyed,
};
use crate::store_effects::sums_add_all_values;
use crate::store_laws::{
    batch_keeps_account, batch_keeps_hosts_apart, growth_keeps_everything,
    host_queries_need_one_shard, ingest_keeps_account, ingest_keeps_hosts_apart,
    new_store_is_accounted, takes_batches,
};
use crate::store_model::{
    all_records, answers, any_live, batch_drops_only_oldest, batch_moves_offsets, capacities,
    equal_shards, fresh_shards, fullest, has_shard, holds_host, hosts_apart, id_is, images,
    is_first, is_fullest, is_id_sort, lags, lemma_first_piece, lemma_fullest, lemma_position,
    lemma_trimmed, lens, next_offsets, only_at, position, reserve_all_drops_only_oldest,
    reserve_drops_only_oldest, restorable, restored_views, restores, trimmed, StoreView,
};
use crate::totals::{
    lemma_sum_concat, lemma_sum_permuted, lemma_sum_prefix, lemma_sum_push, lemma_sum_repeated,
    lemma_sum_zero, sum,
};
use vstd::prelude::*;

verus! {

impl Keyed for SharedLogEntry {
    open spec fn sort_key(&self) -> int {
        self.timestamp as int
    }

    fn key(&self) -> (k: i64) {
        self.timestamp
    }
}

impl Keyed for PartitionShard {
    open spec fn sort_key(&self) -> int {
        self@.id as int
    }

    fn key(&self) -> (k: i64) {
        self.shard_id() as i64
    }
}

/// The entries that a query found, in nondecreasing timestamp order.
#[derive(Debug)]
pub struct QueryResult {
    pub entries: Vec<SharedLogEntry>,
}

impl View for QueryResult {
    type V = Seq<Record>;

    open spec fn view(&self) -> Seq<Record> {
        shared_records(self.entries@)
    }
}

/// Partition-local store.
///
/// Each shard owns its append buffer and its indexes, so that traffic of one
/// partition stays on one shard. The number of live entries is governed by a
/// single budget of the store, but a hot shard that causes capacity pressure
/// sheds its own oldest entries before quieter shards lose any.
pub struct ChironStore {
    shards: Vec<PartitionShard>,
    total_capacity: usize,
    live_len: usize,
}

/// What each of a sequence of shards holds.
pub open spec fn shard_views(shards: Seq<PartitionShard>) -> Seq<ShardView> {
    shards.map_values(|s: PartitionShard| s@)
}

/// Up to which offset each of a sequence of shards is indexed.
pub open spec fn shard_positions(shards: Seq<PartitionShard>) -> Seq<nat> {
    shards.map_values(|s: PartitionShard| s.position())
}

impl View for ChironStore {
    type V = StoreView;

    closed spec fn view(&self) -> StoreView {
        StoreView {
            shards: shard_views(self.shards@),
            live: self.live_len as nat,
            capacity: self.total_capacity as nat,
        }
    }
}

/// Puts entries into nondecreasing timestamp order.
fn sort_entries(entries: Vec<SharedLogEntry>) -> (sorted: Vec<SharedLogEntry>)
    ensures
        answers(shared_records(sorted@), shared_records(entries@)),
{
    let ghost before = entries@;
    let sorted: Vec<SharedLogEntry> = stable_sort(entries);
    proof {
        lemma_map_multiset(sorted@, before, |e: SharedLogEntry| e@);
        let records = shared_records(sorted@);
        assert forall|i: int, j: int| 0 <= i <= j < records.len() implies (
        #[trigger] records[i]).timestamp <= (#[trigger] records[j]).timestamp by {
            assert(sorted@[i].sort_key() <= sorted@[j].sort_key());
        }
    }
    sorted
}

impl ChironStore {
    /// There is a shard, every shard's indexes list exactly its live entries before
    /// its indexer position, and the capacity is the sum of the shards' shares.
    pub closed spec fn consistent(&self) -> bool {
        &&& self.shards@.len() > 0
        &&& forall|i: int|
            0 <= i < self.shards@.len() ==> (#[trigger] self.shards@[i]).consistent()
        &&& self.total_capacity == sum(capacities(self@.shards))
    }

    /// The indexer has visited every entry of every shard.
    pub closed spec fn caught_up(&self) -> bool {
        forall|i: int| 0 <= i < self.shards@.len() ==> (#[trigger] self.shards@[i]).caught_up()
    }

    /// The store is consistent, and its indexes list all live entries.
    pub open spec fn indexed(&self) -> bool {
        self.consistent() && self.caught_up()
    }

    /// The store is consistent, its indexes list all live entries, the taken slots are
    /// those of the live entries, and no host has live entries in two shards.
    pub open spec fn wf(&self) -> bool {
        &&& self.indexed()
        &&& self@.accounted()
        &&& hosts_apart(self@.shards)
    }

    /// For each shard, the offset of the first entry that the indexer has not
    /// visited.
    pub closed spec fn positions(&self) -> Seq<nat> {
        shard_positions(self.shards@)
    }

    /// The number of offsets that the indexer has not visited.
    pub open spec fn lag(&self) -> nat {
        sum(lags(self@.shards, self.positions()))
    }

    /// The indexer has caught up exactly when its positions are the offsets that
    /// the next entries will get, and exactly when it lags behind by nothing.
    pub proof fn caught_up_is_without_lag(&self)
        requires
            self.consistent(),
        ensures
            self.caught_up() <==> self.positions() == next_offsets(self@.shards),
            self.caught_up() <==> self.lag() == 0,
    {
        let shards = self@.shards;
        let all = lags(shards, self.positions());
        lemma_sum_zero(all);
        assert forall|i: int| 0 <= i < self.shards@.len() implies (#[trigger] all[i]) == 0 <==> (
        #[trigger] self.shards@[i]).caught_up() by {
            self.shards@[i].bounds();
        }
        if self.caught_up() {
            assert(self.positions() =~= next_offsets(shards));
            assert forall|i: int| 0 <= i < all.len() implies #[trigger] all[i] == 0 by {
                assert(self.shards@[i].caught_up());
            }
        }
        if self.positions() == next_offsets(shards) {
            assert forall|i: int| 0 <= i < self.shards@.len() implies (
            #[trigger] self.shards@[i]).caught_up() by {
                assert(self.positions()[i] == next_offsets(shards)[i]);
            }
        }
        if self.lag() == 0 {
            assert forall|i: int| 0 <= i < self.shards@.len() implies (
            #[trigger] self.shards@[i]).caught_up() by {
                assert(all[i] == 0);
            }
        }
    }

    /// A well-formed store has a shard, its shards' offsets and ids are machine
    /// integers, and its capacity is the sum of its shards' shares.
    pub proof fn bounds(&self)
        requires
            self.wf(),
        ensures
            self@.shards.len() > 0,
            self@.live <= usize::MAX,
            self@.capacity <= usize::MAX,
            self@.capacity == sum(capacities(self@.shards)),
            self@.accounted(),
            hosts_apart(self@.shards),
            forall|i: int|
                0 <= i < self@.shards.len() ==> (#[trigger] self@.shards[i]).next() <= u64::MAX,
    {
        assert forall|i: int| 0 <= i < self@.shards.len() implies (
        #[trigger] self@.shards[i]).next() <= u64::MAX by {
            self.shards@[i].bounds();
        }
    }

    /// A store with one shard.
    pub fn new(capacity: usize) -> (store: Self)
        requires
            capacity > 0,
        ensures
            store.wf(),
            store@ == StoreView::with_shards(capacity, 1),
    {
        Self::with_shards(capacity, 1)
    }

    /// A store whose capacity is divided equally among its shards.
    pub fn with_shards(total_capacity: usize, shard_count: usize) -> (store: Self)
        requires
            total_capacity > 0,
            shard_count > 0,
            total_capacity % shard_count == 0,
        ensures
            store.wf(),
            store@ == StoreView::with_shards(total_capacity, shard_count as nat),
    {
        let shard_capacity: usize = total_capacity / shard_count;
        let mut shards: Vec<PartitionShard> = Vec::with_capacity(shard_count);
        let mut shard_id: usize = 0;
        while shard_id < shard_count
            invariant
                shard_id <= shard_count,
                shard_views(shards@) =~= equal_shards(shard_id as nat, shard_capacity),
                shards@.len() == shard_id,
                forall|i: int| 0 <= i < shards@.len() ==> (#[trigger] shards@[i]).wf(),
            decreases shard_count - shard_id,
        {
            let ghost before = shards@;
            shards.push(PartitionShard::new(shard_id as u32, shard_capacity));
            assert(shard_views(shards@) =~= shard_views(before).push(
                ShardView::empty(shard_id as u32, shard_capacity),
            ));
            shard_id += 1;
        }
        let store = ChironStore { shards, total_capacity, live_len: 0 };
        proof {
            lemma_sum_repeated(shard_count as nat, shard_capacity as nat);
            assert(capacities(store@.shards) =~= Seq::new(
                shard_count as nat,
                |i: int| shard_capacity as nat,
            ));
            vstd::arithmetic::div_mod::lemma_fundamental_div_mod(
                total_capacity as int,
                shard_count as int,
            );
            new_store_is_accounted(total_capacity, shard_count as nat);
        }
        store
    }

    /// Evicts the oldest entry of one shard, which holds one.
    fn shed_from(&mut self, at: usize)
        requires
            old(self).indexed(),
            at < old(self)@.shards.len(),
            old(self)@.shards[at as int].records.len() > 0,
            old(self)@.live > 0,
        ensures
            final(self).indexed(),
            final(self)@ == old(self)@.shed(at as int),
    {
        let evicted: usize = self.shards[at].evict_head(1);
        self.live_len = self.live_len - evicted;
        proof {
            self.lemma_one_shard_changed(old(self), at as int);
            assert(self@.shards =~= old(self)@.shed(at as int).shards);
        }
    }

    /// A change to the records or the indexes of one shard keeps the store
    /// consistent, and leaves the other shards as they were.
    proof fn lemma_one_shard_changed(&self, before: &Self, at: int)
        requires
            before.consistent(),
            0 <= at < before.shards@.len(),
            self.shards@ == before.shards@.update(at, self.shards@[at]),
            self.shards@[at].consistent(),
            self.shards@[at]@.capacity == before.shards@[at]@.capacity,
            self.total_capacity == before.total_capacity,
        ensures
            self.consistent(),
            before.caught_up() && self.shards@[at].caught_up() ==> self.caught_up(),
            self@.shards == before@.shards.update(at, self.shards@[at]@),
            self.positions() == before.positions().update(at, self.shards@[at].position()),
    {
        assert(self.positions() =~= before.positions().update(at, self.shards@[at].position()));
        assert(self@.shards =~= before@.shards.update(at, self.shards@[at]@));
        assert(capacities(self@.shards) =~= capacities(before@.shards));
    }

    /// Takes a slot for an entry that will enter the shard at `target`, shedding
    /// old entries where no slot is free.
    fn reserve_slot_for_shard(&mut self, target: usize)
        requires
            old(self).indexed(),
            target < old(self)@.shards.len(),
            old(self)@.capacity > 0,
        ensures
            final(self).indexed(),
            final(self)@ == old(self)@.reserve(target as int),
    {
        while self.live_len >= self.total_capacity
            invariant
                self.indexed(),
                target < self@.shards.len(),
                self@.capacity > 0,
                self@.capacity == self.total_capacity,
                self@.live == self.live_len,
                self@.reserve(target as int) == old(self)@.reserve(target as int),
            decreases self.live_len,
        {
            let ghost before = self@;
            if self.shards[target].len() > 0 {
                self.shed_from(target);
            } else {
                let evicted: usize = self.evict_fullest_shard(1);
                proof {
                    lemma_fullest(before.shards);
                }
                if evicted == 0 {
                    proof {
                        lemma_no_live(self@.shards);
                    }
                    self.live_len = self.live_len_from_shards();
                    proof {
                        assert(self@ =~= StoreView { live: 0, ..before });
                        assert(self@.reserve(target as int) =~= before.reserve(target as int));
                    }
                } else {
                    self.live_len = self.live_len - evicted;
                    assert(self@ =~= before.shed(fullest(before.shards)));
                }
            }
        }
        self.live_len = self.live_len + 1;
    }

    /// Evicts up to `count` of the oldest entries of the fullest shard, the last
    /// one where several are, and returns how many went. The taken slots stay as
    /// they are.
    fn evict_fullest_shard(&mut self, count: usize) -> (evicted: usize)
        requires
            old(self).indexed(),
        ensures
            final(self).indexed(),
            !any_live(old(self)@.shards) ==> evicted == 0 && final(self)@ == old(self)@,
            any_live(old(self)@.shards) ==> {
                let at = fullest(old(self)@.shards);
                let held = old(self)@.shards[at].records.len();
                &&& evicted == if count <= held {
                    count as nat
                } else {
                    held
                }
                &&& final(self)@ == StoreView {
                    shards: old(self)@.shards.update(
                        at,
                        old(self)@.shards[at].evict(count as nat),
                    ),
                    ..old(self)@
                }
            },
    {
        let mut best: usize = 0;
        let mut i: usize = 1;
        while i < self.shards.len()
            invariant
                self == old(self),
                1 <= i <= self.shards@.len(),
                best < i,
                is_fullest(self@.shards.take(i as int), best as int),
                self@.shards == shard_views(self.shards@),
            decreases self.shards@.len() - i,
        {
            let ghost seen = self@.shards.take(i as int);
            let ghost more = self@.shards.take(i + 1);
            proof {
                assert forall|j: int| 0 <= j < i implies more[j] == seen[j] by {}
                assert(more[i as int] == self@.shards[i as int]);
                assert(more[best as int] == self@.shards[best as int]);
                assert(self@.shards[i as int] == self.shards@[i as int]@);
                assert(self@.shards[best as int] == self.shards@[best as int]@);
            }
            if self.shards[i].len() >= self.shards[best].len() {
                best = i;
            }
            assert(is_fullest(more, best as int));
            i += 1;
        }
        proof {
            assert(self@.shards.take(i as int) =~= self@.shards);
            lemma_fullest(self@.shards);
            assert(best == fullest(self@.shards));
            assert(self@.shards[best as int] == self.shards@[best as int]@);
        }
        if self.shards[best].len() == 0 {
            return 0;
        }
        let evicted: usize = self.shards[best].evict_head(count);
        proof {
            self.lemma_one_shard_changed(old(self), best as int);
            assert(any_live(old(self)@.shards));
        }
        evicted
    }

    /// The number of entries in all shards.
    fn live_len_from_shards(&self) -> (total: usize)
        requires
            sum(lens(self@.shards)) <= usize::MAX,
        ensures
            total == sum(lens(self@.shards)),
    {
        let mut total: usize = 0;
        let mut i: usize = 0;
        let ghost all = lens(self@.shards);
        while i < self.shards.len()
            invariant
                i <= self.shards@.len(),
                all == lens(self@.shards),
                all.len() == self.shards@.len(),
                sum(all) <= usize::MAX,
                total == sum(all.take(i as int)),
            decreases self.shards@.len() - i,
        {
            proof {
                assert(all.take(i + 1) =~= all.take(i as int).push(all[i as int]));
                lemma_sum_push(all.take(i as int), all[i as int]);
                lemma_sum_prefix(all, i + 1);
                assert(self@.shards[i as int] == self.shards@[i as int]@);
            }
            total += self.shards[i].len();
            i += 1;
        }
        assert(all.take(i as int) =~= all);
        total
    }

    /// The position of the shard that owns a host.
    fn shard_for_host(&self, host: &str) -> (at: usize)
        requires
            self.indexed(),
        ensures
            at == self@.home(host@),
            at < self@.shards.len(),
    {
        partition_for_host(host, self.shards.len())
    }

    /// The position of the shard that holds entries of a host, if one does. The shard
    /// that owns the host is looked into first.
    fn shard_holding_host(&self, host: &str) -> (at: Option<usize>)
        requires
            self.indexed(),
        ensures
            match at {
                Some(i) => i < self@.shards.len() && holds_host(self@.shards[i as int], host@),
                None => forall|i: int|
                    0 <= i < self@.shards.len() ==> !(#[trigger] holds_host(
                        self@.shards[i],
                        host@,
                    )),
            },
    {
        let home: usize = self.shard_for_host(host);
        assert(self@.shards[home as int] == self.shards@[home as int]@);
        if self.shards[home].holds_host(host) {
            return Some(home);
        }
        let mut i: usize = 0;
        while i < self.shards.len()
            invariant
                self.indexed(),
                i <= self.shards@.len(),
                self@.shards == shard_views(self.shards@),
                forall|j: int| 0 <= j < i ==> !(#[trigger] holds_host(self@.shards[j], host@)),
            decreases self.shards@.len() - i,
        {
            assert(self@.shards[i as int] == self.shards@[i as int]@);
            if self.shards[i].holds_host(host) {
                return Some(i);
            }
            i += 1;
        }
        None
    }

    /// Whether no shard but the one at `at` holds an entry of a host.
    fn host_is_only_at(&self, at: usize, host: &str) -> (only: bool)
        requires
            self.indexed(),
        ensures
            only == only_at(self@.shards, at as int, host@),
    {
        let mut i: usize = 0;
        while i < self.shards.len()
            invariant
                self.indexed(),
                i <= self.shards@.len(),
                self@.shards == shard_views(self.shards@),
                forall|j: int|
                    0 <= j < i && j != at ==> !(#[trigger] holds_host(self@.shards[j], host@)),
            decreases self.shards@.len() - i,
        {
            assert(self@.shards[i as int] == self.shards@[i as int]@);
            if i != at && self.shards[i].holds_host(host) {
                return false;
            }
            i += 1;
        }
        true
    }

    /// Whether no host has entries in two shards.
    fn hosts_are_apart(&self) -> (apart: bool)
        requires
            self.indexed(),
        ensures
            apart == hosts_apart(self@.shards),
    {
        let mut i: usize = 0;
        while i < self.shards.len()
            invariant
                self.indexed(),
                i <= self.shards@.len(),
                self@.shards == shard_views(self.shards@),
                forall|j: int, host: Seq<char>|
                    0 <= j < i && #[trigger] holds_host(self@.shards[j], host) ==> only_at(
                        self@.shards,
                        j,
                        host,
                    ),
            decreases self.shards@.len() - i,
        {
            let mut k: usize = 0;
            assert(self@.shards[i as int] == self.shards@[i as int]@);
            while k < self.shards[i].len()
                invariant
                    self.indexed(),
                    i < self.shards@.len(),
                    self@.shards == shard_views(self.shards@),
                    self@.shards[i as int] == self.shards@[i as int]@,
                    k <= self@.shards[i as int].records.len(),
                    forall|m: int|
                        0 <= m < k ==> only_at(
                            self@.shards,
                            i as int,
                            (#[trigger] self@.shards[i as int].records[m]).host,
                        ),
                decreases self@.shards[i as int].records.len() - k,
            {
                let ghost record = self@.shards[i as int].records[k as int];
                if !self.host_is_only_at(i, self.shards[i].host_at(k)) {
                    proof {
                        assert(holds_host(self@.shards[i as int], record.host));
                        let j = choose|j: int|
                            0 <= j < self@.shards.len() && j != i && #[trigger] holds_host(
                                self@.shards[j],
                                record.host,
                            );
                        assert(holds_host(self@.shards[j], record.host));
                    }
                    return false;
                }
                k += 1;
            }
            proof {
                assert forall|host: Seq<char>| #[trigger]
                    holds_host(self@.shards[i as int], host) implies only_at(
                    self@.shards,
                    i as int,
                    host,
                ) by {
                    let records = self@.shards[i as int].records;
                    let m = choose|m: int|
                        0 <= m < records.len() && (#[trigger] records[m]).host == host;
                    assert(only_at(self@.shards, i as int, records[m].host));
                }
            }
            i += 1;
        }
        true
    }

    /// The position of the first shard with the given id.
    fn shard_by_id(&self, shard_id: u32) -> (at: Option<usize>)
        ensures
            match at {
                Some(i) => is_first(self@.shards, shard_id, i as int),
                None => !has_shard(self@.shards, shard_id),
            },
    {
        let mut i: usize = 0;
        while i < self.shards.len()
            invariant
                i <= self.shards@.len(),
                self@.shards == shard_views(self.shards@),
                forall|j: int| 0 <= j < i ==> (#[trigger] self@.shards[j]).id != shard_id,
            decreases self.shards@.len() - i,
        {
            assert(self@.shards[i as int] == self.shards@[i as int]@);
            if self.shards[i].shard_id() == shard_id {
                return Some(i);
            }
            i += 1;
        }
        None
    }

    /// The position of the shard of a partition, which is added, with all ids
    /// before it that are missing at the end, if it is not there.
    fn ensure_shard(&mut self, shard_id: u32) -> (at: usize)
        requires
            old(self).indexed(),
            old(self)@.reachable(shard_id),
        ensures
            final(self).indexed(),
            final(self)@ == old(self)@.grow(shard_id),
            is_first(final(self)@.shards, shard_id, at as int),
            at == position(final(self)@.shards, shard_id),
    {
        if let Some(at) = self.shard_by_id(shard_id) {
            proof {
                assert(self@.shards[at as int].id == shard_id);
                lemma_position(self@.shards, shard_id);
            }
            return at;
        }
        let start: u32 = self.shards.len() as u32;
        let count: u32 = shard_id - start;
        let ghost first = self.shards@.len();
        let mut added: u32 = 0;
        loop
            invariant_except_break
                added <= count,
                self.shards@.len() == first + added,
                self@.shards =~= old(self)@.shards + fresh_shards(start, added as nat),
            invariant
                shard_id == start + count,
                first == old(self)@.shards.len(),
                forall|i: int| 0 <= i < self.shards@.len() ==> (#[trigger] self.shards@[i]).wf(),
                self.total_capacity == old(self).total_capacity,
                self.live_len == old(self).live_len,
            ensures
                added == count,
                self.shards@.len() == first + count + 1,
                self@.shards =~= old(self)@.shards + fresh_shards(start, (count + 1) as nat),
            decreases count - added,
        {
            let ghost before = self.shards@;
            let id: u32 = start + added;
            self.shards.push(PartitionShard::new(id, 0));
            proof {
                assert(shard_views(self.shards@) =~= shard_views(before).push(
                    ShardView::empty(id, 0),
                ));
                assert(fresh_shards(start, (added + 1) as nat) =~= fresh_shards(
                    start,
                    added as nat,
                ).push(ShardView::empty(id, 0)));
                assert(self@.shards =~= old(self)@.shards + fresh_shards(
                    start,
                    (added + 1) as nat,
                ));
            }
            if added == count {
                break;
            }
            added += 1;
        }
        let at: usize = self.shards.len() - 1;
        proof {
            let fresh = fresh_shards(start, (count + 1) as nat);
            assert(self@ =~= old(self)@.grow(shard_id));
            assert(capacities(self@.shards) =~= capacities(old(self)@.shards) + capacities(fresh));
            lemma_sum_concat(capacities(old(self)@.shards), capacities(fresh));
            lemma_sum_zero(capacities(fresh));
            assert forall|j: int| 0 <= j < at implies (#[trigger] self@.shards[j]).id
                != shard_id by {
                if j < first {
                    assert(self@.shards[j] == old(self)@.shards[j]);
                } else {
                    assert(self@.shards[j] == fresh[j - first]);
                }
            }
            assert(self@.shards[at as int] == fresh[count as int]);
            assert(is_first(self@.shards, shard_id, at as int));
            assert(has_shard(self@.shards, shard_id));
            lemma_position(self@.shards, shard_id);
        }
        at
    }

    /// Appends an entry to the shard at `target`, for which a slot is taken
    /// first.
    fn ingest_at(&mut self, target: usize, entry: LogEntry) -> (offset: u64)
        requires
            old(self).wf(),
            target < old(self)@.shards.len(),
            old(self)@.capacity > 0,
            old(self)@.shards[target as int].next() < u64::MAX,
            only_at(old(self)@.shards, target as int, entry@.host),
        ensures
            final(self).wf(),
            offset == old(self)@.shards[target as int].next(),
            final(self)@ == old(self)@.ingest_at(target as int, entry@),
            final(self)@.capacity == old(self)@.capacity,
            sum(lens(final(self)@.shards)) <= final(self)@.capacity,
    {
        proof {
            reserve_drops_only_oldest(self@, target as int);
            let after = self@.reserve(target as int);
            lemma_trimmed(self@.shards[target as int], after.shards[target as int]);
            ingest_keeps_account(self@, target as int, entry@);
            ingest_keeps_hosts_apart(self@, target as int, entry@);
        }
        self.reserve_slot_for_shard(target);
        let ghost reserved = *self;
        let ghost record = entry@;
        assert(self@.shards[target as int] == self.shards@[target as int]@);
        let offset: u64 = self.shards[target].ingest(SharedLogEntry::from(entry));
        proof {
            self.lemma_one_shard_changed(&reserved, target as int);
            let shard = reserved@.shards[target as int];
            assert(shard.push(record) =~= shard.push_all(seq![record]));
            assert(self@ =~= old(self)@.ingest_at(target as int, record));
        }
        offset
    }

    /// Appends an entry to the shard that owns its host and returns its offset
    /// there. No other shard may hold entries of the host.
    pub fn ingest(&mut self, entry: LogEntry) -> (offset: u64)
        requires
            old(self).wf(),
            old(self)@.capacity > 0,
            old(self)@.shards[old(self)@.home(entry@.host)].next() < u64::MAX,
            only_at(old(self)@.shards, old(self)@.home(entry@.host), entry@.host),
        ensures
            final(self).wf(),
            offset == old(self)@.shards[old(self)@.home(entry@.host)].next(),
            final(self)@ == old(self)@.ingest(entry@),
            final(self)@.capacity == old(self)@.capacity,
            sum(lens(final(self)@.shards)) <= final(self)@.capacity,
    {
        let target: usize = self.shard_for_host(entry.host_id.as_str());
        self.ingest_at(target, entry)
    }

    /// Appends an entry to the shard that owns its host and returns its offset
    /// there, if the store has a slot at all, the shard an offset left, and no other
    /// shard entries of the host.
    pub fn try_ingest(&mut self, entry: LogEntry) -> (offset: Option<u64>)
        requires
            old(self).wf(),
        ensures
            final(self).wf(),
            ({
                let home = old(self)@.home(entry@.host);
                let next = old(self)@.shards[home].next();
                if old(self)@.capacity > 0 && next < u64::MAX && only_at(
                    old(self)@.shards,
                    home,
                    entry@.host,
                ) {
                    &&& offset == Some(next as u64)
                    &&& final(self)@ == old(self)@.ingest(entry@)
                } else {
                    &&& offset is None
                    &&& final(self)@ == old(self)@
                }
            }),
    {
        let target: usize = self.shard_for_host(entry.host_id.as_str());
        assert(self@.shards[target as int] == self.shards@[target as int]@);
        proof {
            self.bounds();
        }
        if self.total_capacity == 0 || self.shards[target].next_offset() == u64::MAX {
            return None;
        }
        if !self.host_is_only_at(target, entry.host_id.as_str()) {
            return None;
        }
        Some(self.ingest(entry))
    }

    /// Whether entries of a host may enter the shard of a Kafka partition: no other
    /// shard holds one.
    pub fn admits_host(&self, partition_id: u32, host: &str) -> (admitted: bool)
        requires
            self.wf(),
            self@.reachable(partition_id),
        ensures
            admitted == self@.admits(partition_id, host@),
    {
        proof {
            growth_keeps_everything(self@, partition_id);
            lemma_position(self@.grow(partition_id).shards, partition_id);
        }
        match self.shard_by_id(partition_id) {
            Some(at) => {
                proof {
                    assert(self@.shards[at as int].id == partition_id);
                    lemma_position(self@.shards, partition_id);
                }
                self.host_is_only_at(at, host)
            },
            None => {
                let held: Option<usize> = self.shard_holding_host(host);
                proof {
                    let grown = self@.grow(partition_id).shards;
                    let at = position(grown, partition_id);
                    assert(at >= self@.shards.len()) by {
                        if at < self@.shards.len() {
                            assert(self@.shards[at] == grown[at]);
                        }
                    }
                    match held {
                        Some(i) => {
                            assert(grown[i as int] == self@.shards[i as int]);
                            assert(holds_host(grown[i as int], host@));
                        },
                        None => {
                            assert forall|i: int| 0 <= i < grown.len() implies !(
                            #[trigger] holds_host(grown[i], host@)) by {
                                if i < self@.shards.len() {
                                    assert(grown[i] == self@.shards[i]);
                                }
                            }
                        },
                    }
                }
                held.is_none()
            },
        }
    }

    /// Whether `count` entries can be appended to the shard of a Kafka partition:
    /// the store has a slot at all, the partition has a shard or can get one, and
    /// the shard has offsets left.
    pub fn can_ingest_partition(&self, partition_id: u32, count: usize) -> (can: bool)
        requires
            self.wf(),
        ensures
            can == (self@.capacity > 0 && self@.reachable(partition_id) && self@.next_of(
                partition_id,
            ) + count <= u64::MAX),
    {
        proof {
            self.bounds();
        }
        if self.total_capacity == 0 {
            return false;
        }
        match self.shard_by_id(partition_id) {
            Some(at) => {
                proof {
                    assert(self@.shards[at as int].id == partition_id);
                    lemma_position(self@.shards, partition_id);
                    assert(self@.shards[at as int] == self.shards@[at as int]@);
                }
                count as u64 <= u64::MAX - self.shards[at].next_offset()
            },
            None => {
                let start: u32 = self.shards.len() as u32;
                if start > partition_id {
                    return false;
                }
                proof {
                    lemma_fresh_position(self@, partition_id);
                }
                true
            },
        }
    }

    /// Whether batches of `count` entries can be appended, whatever partitions their
    /// entries belong to.
    pub fn takes_batches_of(&self, count: usize) -> (can: bool)
        requires
            self.wf(),
        ensures
            can == takes_batches(self@, count as nat),
            can == {
                &&& self@.capacity > 0
                &&& self@.shards.len() <= 0x1_0000_0000
                &&& forall|i: int|
                    0 <= i < self@.shards.len() ==> (#[trigger] self@.shards[i]).id == i
                &&& forall|i: int|
                    0 <= i < self@.shards.len() ==> (#[trigger] self@.shards[i]).oldest
                        + self@.shards[i].records.len() + count <= u64::MAX
            },
    {
        proof {
            self.bounds();
        }
        if self.total_capacity == 0 || self.shards.len() as u64 > 0x1_0000_0000 {
            return false;
        }
        let mut i: usize = 0;
        while i < self.shards.len()
            invariant
                self.wf(),
                i <= self.shards@.len(),
                self@.shards == shard_views(self.shards@),
                self@.shards.len() == self.shards@.len(),
                forall|j: int| 0 <= j < i ==> (#[trigger] self@.shards[j]).id == j,
                forall|j: int|
                    0 <= j < i ==> (#[trigger] self@.shards[j]).next() + count <= u64::MAX,
            decreases self.shards@.len() - i,
        {
            assert(self@.shards[i as int] == self.shards@[i as int]@);
            let shard: &PartitionShard = &self.shards[i];
            if shard.shard_id() as u64 != i as u64 {
                return false;
            }
            proof {
                shard.bounds();
            }
            if count as u64 > u64::MAX - shard.next_offset() {
                return false;
            }
            i += 1;
        }
        true
    }

    /// Appends an entry to the shard of a Kafka partition and returns its offset
    /// there. No other shard may hold entries of its host.
    pub fn ingest_partition(&mut self, partition_id: u32, entry: LogEntry) -> (offset: u64)
        requires
            old(self).wf(),
            old(self)@.capacity > 0,
            old(self)@.reachable(partition_id),
            old(self)@.next_of(partition_id) < u64::MAX,
            old(self)@.admits(partition_id, entry@.host),
        ensures
            final(self).wf(),
            offset == old(self)@.next_of(partition_id),
            final(self)@ == old(self)@.ingest_partition(partition_id, entry@),
            final(self)@.capacity == old(self)@.capacity,
            sum(lens(final(self)@.shards)) <= final(self)@.capacity,
    {
        proof {
            growth_keeps_everything(self@, partition_id);
        }
        let target: usize = self.ensure_shard(partition_id);
        self.ingest_at(target, entry)
    }

    /// Appends entries, for which slots are taken already, to the shard at `target`.
    fn append_at(&mut self, target: usize, entries: Vec<SharedLogEntry>)
        requires
            old(self).indexed(),
            target < old(self)@.shards.len(),
            old(self)@.shards[target as int].next() + entries@.len() <= u64::MAX,
        ensures
            final(self).indexed(),
            final(self)@ == old(self)@.append(target as int, shared_records(entries@)),
    {
        assert(self@.shards[target as int] == self.shards@[target as int]@);
        let _ = self.shards[target].ingest_batch(entries);
        proof {
            self.lemma_one_shard_changed(old(self), target as int);
        }
    }

    /// Appends entries to the shard of a Kafka partition in their order and
    /// returns their number. Slots are taken for all of them before the first one is
    /// appended, so that none displaces another; more entries than the store has slots
    /// come in pieces that fit. No other shard may hold entries of their hosts.
    pub fn ingest_partition_batch(&mut self, partition_id: u32, entries: Vec<LogEntry>) -> (count:
        usize)
        requires
            old(self).wf(),
            entries@.len() > 0 ==> {
                &&& old(self)@.capacity > 0
                &&& old(self)@.reachable(partition_id)
                &&& old(self)@.next_of(partition_id) + entries@.len() <= u64::MAX
            },
            forall|k: int|
                0 <= k < entries@.len() ==> old(self)@.admits(
                    partition_id,
                    (#[trigger] entries@[k])@.host,
                ),
        ensures
            final(self).wf(),
            count == entries@.len(),
            final(self)@ == old(self)@.ingest_partition_batch(
                partition_id,
                entry_records(entries@),
            ),
            final(self)@.capacity == old(self)@.capacity,
            entries@.len() > 0 || sum(lens(old(self)@.shards)) <= old(self)@.capacity ==> sum(
                lens(final(self)@.shards),
            ) <= final(self)@.capacity,
    {
        let count: usize = entries.len();
        if count == 0 {
            return 0;
        }
        proof {
            growth_keeps_everything(self@, partition_id);
        }
        let target: usize = self.ensure_shard(partition_id);
        let ghost grown = self@;
        let ghost all = entry_records(entries@);
        proof {
            assert forall|k: int| 0 <= k < all.len() implies only_at(
                grown.shards,
                target as int,
                (#[trigger] all[k]).host,
            ) by {
                assert(all[k] == entries@[k]@);
            }
            assert(all.skip(0) =~= all);
        }
        let mut piece: Vec<SharedLogEntry> = Vec::new();
        // The store before the piece at hand, and where that piece starts in the batch.
        let ghost mut done = grown;
        let ghost mut start: int = 0;
        assert(shared_records(piece@) =~= all.subrange(0, 0));
        for entry in it: entries
            invariant
                all == entry_records(it.seq()),
                all.len() == count,
                self.indexed(),
                self.total_capacity == done.capacity,
                done.capacity == grown.capacity,
                done.capacity > 0,
                target < done.shards.len(),
                done.accounted(),
                hosts_apart(done.shards),
                forall|k: int|
                    0 <= k < all.len() ==> only_at(
                        done.shards,
                        target as int,
                        (#[trigger] all[k]).host,
                    ),
                0 <= start <= it.index(),
                done.shards[target as int].next() + (all.len() - start) <= u64::MAX,
                done.ingest_all_at(target as int, all.skip(start)) == grown.ingest_all_at(
                    target as int,
                    all,
                ),
                piece@.len() == it.index() - start,
                piece@.len() < done.capacity,
                shared_records(piece@) == all.subrange(start, it.index() as int),
                self@ == done.reserve_all(target as int, piece@.len()),
        {
            let ghost i = it.index() as int;
            proof {
                reserve_all_drops_only_oldest(done, target as int, piece@.len());
            }
            self.reserve_slot_for_shard(target);
            let ghost before = piece@;
            let item: SharedLogEntry = SharedLogEntry::from(entry);
            assert(item@ == all[i]);
            piece.push(item);
            proof {
                assert(shared_records(piece@) =~= shared_records(before).push(all[i]));
                assert(shared_records(piece@) =~= all.subrange(start, i + 1));
                reserve_all_drops_only_oldest(done, target as int, piece@.len());
            }
            if piece.len() == self.total_capacity {
                let mut full: Vec<SharedLogEntry> = Vec::new();
                core::mem::swap(&mut piece, &mut full);
                let ghost first = shared_records(full@);
                let ghost rest = all.skip(start);
                proof {
                    assert(first =~= rest.take(done.capacity as int));
                    assert(trimmed(done.shards[target as int], self@.shards[target as int]));
                    lemma_trimmed(done.shards[target as int], self@.shards[target as int]);
                    lemma_first_piece(done, target as int, rest);
                    batch_keeps_account(done, target as int, first);
                    batch_moves_offsets(done, target as int, first);
                    assert forall|k: int| 0 <= k < first.len() implies only_at(
                        done.shards,
                        target as int,
                        (#[trigger] first[k]).host,
                    ) by {
                        assert(first[k] == all[start + k]);
                    }
                    batch_keeps_hosts_apart(done, target as int, first);
                }
                self.append_at(target, full);
                proof {
                    let next = done.ingest_all_at(target as int, first);
                    assert(rest.skip(done.capacity as int) =~= all.skip(i + 1));
                    assert forall|k: int| 0 <= k < all.len() implies only_at(
                        next.shards,
                        target as int,
                        (#[trigger] all[k]).host,
                    ) by {
                        assert(only_at(done.shards, target as int, all[k].host));
                    }
                    done = next;
                    start = i + 1;
                    assert(shared_records(piece@) =~= all.subrange(start, start));
                }
            }
        }
        let ghost rest = all.skip(start);
        proof {
            assert(shared_records(piece@) =~= rest);
            reserve_all_drops_only_oldest(done, target as int, piece@.len());
            assert(trimmed(done.shards[target as int], self@.shards[target as int]));
            lemma_trimmed(done.shards[target as int], self@.shards[target as int]);
        }
        self.append_at(target, piece);
        proof {
            assert(self@ == done.ingest_all_at(target as int, rest));
            batch_drops_only_oldest(grown, target as int, all);
            batch_keeps_account(grown, target as int, all);
            batch_keeps_hosts_apart(grown, target as int, all);
        }
        count
    }

    /// Indexes every live entry of every shard that is not indexed yet. What the
    /// store holds stays as it is.
    pub fn flush_indexer(&mut self)
        requires
            old(self).consistent(),
        ensures
            final(self).indexed(),
            final(self).positions() == next_offsets(old(self)@.shards),
            final(self)@ == old(self)@,
    {
        let mut i: usize = 0;
        while i < self.shards.len()
            invariant
                self.consistent(),
                self@ == old(self)@,
                i <= self.shards@.len(),
                forall|j: int| 0 <= j < i ==> (#[trigger] self.shards@[j]).caught_up(),
            decreases self.shards@.len() - i,
        {
            self.flush_at(i);
            i += 1;
        }
        proof {
            self.caught_up_is_without_lag();
        }
    }

    /// Indexes every live entry of one shard that is not indexed yet.
    fn flush_at(&mut self, at: usize)
        requires
            old(self).consistent(),
            at < old(self).shards@.len(),
        ensures
            final(self).consistent(),
            final(self)@ == old(self)@,
            final(self).shards@.len() == old(self).shards@.len(),
            final(self).shards@[at as int].caught_up(),
            forall|i: int|
                0 <= i < old(self).shards@.len() && i != at ==> #[trigger] final(self).shards@[i]
                    == old(self).shards@[i],
            final(self).positions() == old(self).positions().update(
                at as int,
                old(self)@.shards[at as int].next(),
            ),
    {
        self.shards[at].flush_indexer();
        proof {
            self.lemma_one_shard_changed(old(self), at as int);
            assert(self@ =~= old(self)@);
        }
    }

    /// Indexes every live entry of one shard that is not indexed yet, if there is
    /// such a shard. What the store holds, and how far the indexes of the other
    /// shards reach, stays as it is.
    pub fn flush_indexer_shard(&mut self, shard_id: u32)
        requires
            old(self).consistent(),
        ensures
            final(self).consistent(),
            old(self).caught_up() ==> final(self).caught_up(),
            final(self)@ == old(self)@,
            final(self).positions() == if has_shard(old(self)@.shards, shard_id) {
                let at = position(old(self)@.shards, shard_id);
                old(self).positions().update(at, old(self)@.shards[at].next())
            } else {
                old(self).positions()
            },
    {
        if let Some(at) = self.shard_by_id(shard_id) {
            proof {
                assert(self@.shards[at as int].id == shard_id);
                lemma_position(self@.shards, shard_id);
            }
            self.flush_at(at);
        }
    }

    /// The number of offsets, over all shards, that the indexer has not visited:
    /// none once it has caught up.
    pub fn indexer_lag(&self) -> (lag: u64)
        requires
            self.consistent(),
            self.caught_up() || self.lag() <= u64::MAX,
        ensures
            lag == self.lag(),
            lag == Seq::new(
                self@.shards.len(),
                |i: int|
                    (self@.shards[i].oldest + self@.shards[i].records.len()
                        - self.positions()[i]) as nat,
            ).fold_left(0nat, |total: nat, value: nat| total + value),
            self.caught_up() <==> lag == 0,
    {
        proof {
            self.caught_up_is_without_lag();
        }
        let mut total: u64 = 0;
        let mut i: usize = 0;
        let ghost all = lags(self@.shards, self.positions());
        while i < self.shards.len()
            invariant
                self.consistent(),
                i <= self.shards@.len(),
                all == lags(self@.shards, self.positions()),
                all.len() == self.shards@.len(),
                sum(all) <= u64::MAX,
                total == sum(all.take(i as int)),
            decreases self.shards@.len() - i,
        {
            proof {
                assert(all.take(i + 1) =~= all.take(i as int).push(all[i as int]));
                lemma_sum_push(all.take(i as int), all[i as int]);
                lemma_sum_prefix(all, i + 1);
                assert(self@.shards[i as int] == self.shards@[i as int]@);
                assert(self.positions()[i as int] == self.shards@[i as int].position());
            }
            total += self.shards[i].indexer_lag();
            i += 1;
        }
        proof {
            assert(all.take(i as int) =~= all);
            lags_add_up(self);
        }
        total
    }

    /// The entries of a service with a timestamp in `[t1, t2]`, from all shards.
    pub fn query_by_service(&self, service: &str, t1: i64, t2: i64) -> (result: QueryResult)
        requires
            self.wf(),
        ensures
            answers(result@, self@.by_service(service@, t1, t2)),
    {
        let mut entries: Vec<SharedLogEntry> = Vec::new();
        let mut i: usize = 0;
        let ghost p = within(has(Dimension::Service, service@), t1, t2);
        let ghost shards = self@.shards;
        proof {
            assert(shards.take(0) =~= Seq::empty());
            lemma_filter_empty(p);
            assert(shared_records(entries@) =~= Seq::empty());
        }
        while i < self.shards.len()
            invariant
                self.wf(),
                shards == self@.shards,
                shards.len() == self.shards@.len(),
                i <= self.shards@.len(),
                p == within(has(Dimension::Service, service@), t1, t2),
                shared_records(entries@) == all_records(shards.take(i as int)).filter(p),
            decreases self.shards@.len() - i,
        {
            let mut found: Vec<SharedLogEntry> = self.shards[i].query_by_service(service, t1, t2);
            let ghost before = entries@;
            let ghost matching = found@;
            entries.append(&mut found);
            proof {
                assert(shared_records(entries@) =~= shared_records(before) + shared_records(
                    matching,
                ));
                assert(shards.take(i + 1).drop_last() =~= shards.take(i as int));
                assert(shards.take(i + 1).last() == self.shards@[i as int]@);
                Seq::filter_distributes_over_add(
                    all_records(shards.take(i as int)),
                    shards[i as int].records,
                    p,
                );
            }
            i += 1;
        }
        assert(shards.take(i as int) =~= shards);
        QueryResult { entries: sort_entries(entries) }
    }

    /// The entries of a host with a timestamp in `[t1, t2]`, from the shard that holds
    /// entries of the host, whichever it is.
    pub fn query_by_host(&self, host: &str, t1: i64, t2: i64) -> (result: QueryResult)
        requires
            self.wf(),
        ensures
            answers(result@, self@.by_host(host@, t1, t2)),
    {
        let held: Option<usize> = self.shard_holding_host(host);
        proof {
            let at = match held {
                Some(at) => at as int,
                None => -1,
            };
            assert(only_at(self@.shards, at, host@));
            host_queries_need_one_shard(self@, at, Seq::empty(), host@, t1, t2);
        }
        match held {
            Some(at) => {
                assert(self@.shards[at as int] == self.shards@[at as int]@);
                QueryResult { entries: sort_entries(self.shards[at].query_by_host(host, t1, t2)) }
            },
            None => Self::nothing_found(),
        }
    }

    /// The entries of a service on a host with a timestamp in `[t1, t2]`, from the
    /// shard that holds entries of the host, whichever it is.
    pub fn query_by_service_and_host(
        &self,
        service: &str,
        host: &str,
        t1: i64,
        t2: i64,
    ) -> (result: QueryResult)
        requires
            self.wf(),
        ensures
            answers(result@, self@.by_service_and_host(service@, host@, t1, t2)),
    {
        let held: Option<usize> = self.shard_holding_host(host);
        proof {
            let at = match held {
                Some(at) => at as int,
                None => -1,
            };
            assert(only_at(self@.shards, at, host@));
            host_queries_need_one_shard(self@, at, service@, host@, t1, t2);
        }
        match held {
            Some(at) => {
                assert(self@.shards[at as int] == self.shards@[at as int]@);
                let entries: Vec<SharedLogEntry> = self.shards[at].query_by_service_and_host(
                    service,
                    host,
                    t1,
                    t2,
                );
                QueryResult { entries: sort_entries(entries) }
            },
            None => Self::nothing_found(),
        }
    }

    fn nothing_found() -> (result: QueryResult)
        ensures
            answers(result@, Seq::empty()),
    {
        let result = QueryResult { entries: Vec::new() };
        assert(result@ =~= Seq::empty());
        result
    }

    /// The number of slots that are taken: that of the live entries.
    pub fn len(&self) -> (len: usize)
        ensures
            len == self@.live,
            self@.accounted() ==> len == sum(lens(self@.shards)),
    {
        self.live_len
    }

    pub fn capacity(&self) -> (capacity: usize)
        ensures
            capacity == self@.capacity,
    {
        self.total_capacity
    }

    pub fn shard_count(&self) -> (count: usize)
        ensures
            count == self@.shards.len(),
    {
        self.shards.len()
    }

    /// The number of live entries in each shard, by shard position.
    pub fn shard_lens(&self) -> (held: Vec<usize>)
        ensures
            held@.map_values(|len: usize| len as nat) == lens(self@.shards),
    {
        let mut held: Vec<usize> = Vec::with_capacity(self.shards.len());
        let mut i: usize = 0;
        while i < self.shards.len()
            invariant
                i <= self.shards@.len(),
                held@.len() == i,
                self@.shards == shard_views(self.shards@),
                forall|j: int| 0 <= j < i ==> #[trigger] held@[j] == self@.shards[j].records.len(),
            decreases self.shards@.len() - i,
        {
            assert(self@.shards[i as int] == self.shards@[i as int]@);
            held.push(self.shards[i].len());
            i += 1;
        }
        assert(held@.map_values(|len: usize| len as nat) =~= lens(self@.shards));
        held
    }

    /// The bytes of a snapshot of the store with the given Kafka offsets.
    pub fn save_snapshot(&self, kafka_offsets: &KafkaOffsets) -> (data: Vec<u8>)
        requires
            self.wf(),
        ensures
            data@ == encode_snapshot(images(self@.shards), kafka_offsets.listing()),
    {
        let mut shards: Vec<SnapshotShard> = Vec::with_capacity(self.shards.len());
        let ghost all = images(self@.shards);
        let mut i: usize = 0;
        while i < self.shards.len()
            invariant
                self.wf(),
                all == images(self@.shards),
                all.len() == self.shards@.len(),
                i <= self.shards@.len(),
                shards@.len() == i,
                snapshot_images(shards@) =~= all.take(i as int),
            decreases self.shards@.len() - i,
        {
            let ghost before = shards@;
            let shard: &PartitionShard = &self.shards[i];
            let item = SnapshotShard {
                shard_id: shard.shard_id(),
                capacity: shard.capacity(),
                next_offset: shard.next_offset(),
                entries: shard.entries_owned(),
            };
            proof {
                assert(self@.shards[i as int] == shard@);
                assert(item@ =~= shard@.image());
            }
            shards.push(item);
            assert(snapshot_images(shards@) =~= snapshot_images(before).push(item@));
            i += 1;
        }
        assert(snapshot_images(shards@) =~= all);
        Snapshot::save_sharded(shards.as_slice(), kafka_offsets)
    }

    /// The store that a snapshot holds, with its indexes rebuilt, and the Kafka
    /// offsets to resume from. A snapshot with entries of one host in two shards is
    /// refused.
    pub fn from_snapshot(data: &[u8]) -> (restored: Result<(Self, KafkaOffsets), SnapshotError>)
        ensures
            match decode_snapshot(data@) {
                Err(e) => restored == Err::<(Self, KafkaOffsets), SnapshotError>(e),
                Ok(contents) => if contents.shards.len() == 0 {
                    restored == Err::<(Self, KafkaOffsets), SnapshotError>(SnapshotError::NoShards)
                } else if !restorable(contents.shards) {
                    restored == Err::<(Self, KafkaOffsets), SnapshotError>(
                        SnapshotError::OffsetBelowEntryCount,
                    )
                } else if !hosts_apart(restored_views(contents.shards)) {
                    restored == Err::<(Self, KafkaOffsets), SnapshotError>(
                        SnapshotError::HostInTwoShards,
                    )
                } else {
                    &&& restored matches Ok((store, offsets))
                    &&& store.wf()
                    &&& restores(contents.shards, store@)
                    &&& store@.capacity == contents.total_capacity
                    &&& offsets@ == apply_topics(Map::empty(), contents.topics)
                    &&& offsets.wf()
                },
            },
    {
        let (total_capacity, restored_shards, kafka_offsets): (
            usize,
            Vec<RestoredShard>,
            KafkaOffsets,
        ) = match Snapshot::load_sharded(data) {
            Ok(loaded) => loaded,
            Err(e) => return Err(e),
        };
        let ghost all = restored_images(restored_shards@);
        if restored_shards.len() == 0 {
            return Err(SnapshotError::NoShards);
        }
        let mut shards: Vec<PartitionShard> = Vec::with_capacity(restored_shards.len());
        for restored in it: restored_shards
            invariant
                all == restored_images(it.seq()),
                decode_snapshot(data@) matches Ok(contents) && contents.shards == all,
                all.len() > 0,
                shards@.len() == it.index(),
                shard_views(shards@) =~= restored_views(all).take(it.index() as int),
                forall|i: int| 0 <= i < shards@.len() ==> (#[trigger] shards@[i]).consistent(),
                forall|i: int|
                    0 <= i < it.index() ==> (#[trigger] all[i]).records.len()
                        <= all[i].next_offset,
        {
            let ghost i = it.index() as int;
            let ghost before = shards@;
            assert(restored@ == all[i]);
            match PartitionShard::from_restored(restored) {
                Ok(shard) => {
                    shards.push(shard);
                    assert(shard_views(shards@) =~= shard_views(before).push(
                        restored_views(all)[i],
                    ));
                },
                Err(e) => {
                    assert(!restorable(all));
                    return Err(e);
                },
            }
        }
        let ghost unsorted = shards@;
        proof {
            assert(restorable(all));
            assert(shard_views(unsorted) =~= restored_views(all));
        }
        let sorted: Vec<PartitionShard> = stable_sort(shards);
        let mut store = ChironStore { shards: sorted, total_capacity, live_len: 0 };
        proof {
            lemma_sorted_views(unsorted, sorted@);
            loaded_shards_are_bounded(data@);
            assert(lens(shard_views(unsorted)) =~= image_lens(all));
            assert(capacities(shard_views(unsorted)) =~= image_capacities(all));
            assert forall|i: int| 0 <= i < sorted@.len() implies (
            #[trigger] sorted@[i]).consistent() by {
                broadcast use vstd::seq_lib::group_to_multiset_ensures;

                assert(sorted@.contains(sorted@[i]));
                assert(unsorted.to_multiset().count(sorted@[i]) > 0);
                assert(unsorted.contains(sorted@[i]));
            }
            assert(data@.len() == data.len());
        }
        store.live_len = store.live_len_from_shards();
        store.flush_indexer();
        proof {
            if hosts_apart(store@.shards) {
                lemma_apart_permuted(store@.shards, shard_views(unsorted));
            }
            if hosts_apart(shard_views(unsorted)) {
                lemma_apart_permuted(shard_views(unsorted), store@.shards);
            }
        }
        if !store.hosts_are_apart() {
            return Err(SnapshotError::HostInTwoShards);
        }
        Ok((store, kafka_offsets))
    }
}

/// Sorting shards by their ids, seen on their views.
proof fn lemma_sorted_views(shards: Seq<PartitionShard>, sorted: Seq<PartitionShard>)
    requires
        is_stable_sort(shards, sorted),
        shards.to_multiset() == sorted.to_multiset(),
    ensures
        is_id_sort(shard_views(shards), shard_views(sorted)),
        sum(lens(shard_views(sorted))) == sum(lens(shard_views(shards))),
        sum(capacities(shard_views(sorted))) == sum(capacities(shard_views(shards))),
        sorted.len() == shards.len(),
        shard_views(shards).to_multiset() == shard_views(sorted).to_multiset(),
{
    broadcast use vstd::seq_lib::group_to_multiset_ensures;

    let views = shard_views(sorted);
    assert forall|i: int, j: int| 0 <= i <= j < views.len() implies (#[trigger] views[i]).id <= (
    #[trigger] views[j]).id by {
        assert(sorted[i].sort_key() <= sorted[j].sort_key());
    }
    let f = |s: PartitionShard| s@;
    assert forall|id: u32| #[trigger] views.filter(id_is(id)) == shard_views(shards).filter(
        id_is(id),
    ) by {
        let p = key_is(id as int);
        lemma_map_filter(sorted, f, p, id_is(id));
        lemma_map_filter(shards, f, p, id_is(id));
        assert(with_key(sorted, id as int) == with_key(shards, id as int));
    }
    lemma_map_multiset(sorted, shards, f);
    let len = |s: ShardView| s.records.len();
    let capacity = |s: ShardView| s.capacity as nat;
    lemma_map_multiset(shard_views(sorted), shard_views(shards), len);
    lemma_map_multiset(shard_views(sorted), shard_views(shards), capacity);
    lemma_sum_permuted(lens(shard_views(sorted)), lens(shard_views(shards)));
    lemma_sum_permuted(capacities(shard_views(sorted)), capacities(shard_views(shards)));
    assert(shards.len() == shards.to_multiset().len());
    assert(sorted.len() == sorted.to_multiset().len());
}

/// A member of a sequence that stands there twice stands twice in every other order
/// of the sequence.
proof fn lemma_twice_permuted(a: Seq<ShardView>, b: Seq<ShardView>, i: int, j: int) -> (found: (
    int,
    int,
))
    requires
        a.to_multiset() == b.to_multiset(),
        0 <= i < b.len(),
        0 <= j < b.len(),
        i != j,
    ensures
        0 <= found.0 < a.len(),
        0 <= found.1 < a.len(),
        found.0 != found.1,
        a[found.0] == b[i],
        a[found.1] == b[j],
{
    broadcast use vstd::seq_lib::group_to_multiset_ensures;

    let x = b[i];
    let y = b[j];
    assert(b.contains(x));
    assert(a.to_multiset().count(x) > 0);
    assert(a.contains(x));
    let m = choose|m: int| 0 <= m < a.len() && a[m] == x;
    let fewer_a = a.remove(m);
    let fewer_b = b.remove(i);
    let at = if j < i {
        j
    } else {
        j - 1
    };
    assert(fewer_b[at] == y);
    assert(fewer_b.contains(y));
    assert(fewer_a.to_multiset() == fewer_b.to_multiset());
    assert(fewer_a.to_multiset().count(y) > 0);
    assert(fewer_a.contains(y));
    let n = choose|n: int| 0 <= n < fewer_a.len() && fewer_a[n] == y;
    if n < m {
        (m, n)
    } else {
        (m, n + 1)
    }
}

/// Whether hosts are apart does not depend on the order of the shards.
proof fn lemma_apart_permuted(a: Seq<ShardView>, b: Seq<ShardView>)
    requires
        a.to_multiset() == b.to_multiset(),
        hosts_apart(a),
    ensures
        hosts_apart(b),
{
    assert forall|i: int, j: int, host: Seq<char>|
        0 <= i < b.len() && 0 <= j < b.len() && #[trigger] holds_host(b[i], host)
            && #[trigger] holds_host(b[j], host) implies i == j by {
        if i != j {
            let (m, n) = lemma_twice_permuted(a, b, i, j);
            assert(holds_host(a[m], host) && holds_host(a[n], host));
        }
    }
}

proof fn lemma_filter_empty(p: spec_fn(Record) -> bool)
    ensures
        Seq::<Record>::empty().filter(p) == Seq::<Record>::empty(),
{
    reveal(Seq::filter);
}

/// The shard that a partition gets is empty.
proof fn lemma_fresh_position(store: StoreView, id: u32)
    requires
        !has_shard(store.shards, id),
        store.reachable(id),
    ensures
        store.next_of(id) == 0,
{
    let first = store.shards.len() as u32;
    let count = (id - first + 1) as nat;
    let fresh = fresh_shards(first, count);
    let grown = store.grow(id).shards;
    let at = store.shards.len() + count - 1;
    assert(grown[at] == fresh[count - 1]);
    assert forall|j: int| 0 <= j < at implies (#[trigger] grown[j]).id != id by {
        if j < store.shards.len() {
            assert(grown[j] == store.shards[j]);
        } else {
            assert(grown[j] == fresh[j - store.shards.len()]);
        }
    }
    assert(is_first(grown, id, at));
    lemma_position(grown, id);
}

/// Without a live record, all lengths are zero.
proof fn lemma_no_live(shards: Seq<ShardView>)
    requires
        !any_live(shards),
    ensures
        sum(lens(shards)) == 0,
{
    assert forall|i: int| 0 <= i < lens(shards).len() implies #[trigger] lens(shards)[i] == 0 by {
        assert(shards[i].records.len() == 0);
    }
    lemma_sum_zero(lens(shards));
}

/// A store shows its shards one by one, in their order, each with how far it is indexed.
pub proof fn shards_are_shown_in_order(shards: Seq<PartitionShard>, i: int)
    requires
        0 <= i < shards.len(),
    ensures
        shard_views(shards).len() == shards.len(),
        shard_views(shards)[i] == shards[i]@,
        shard_positions(shards).len() == shards.len(),
        shard_positions(shards)[i] == shards[i].position(),
{
}

/// A store lags behind by what its shards lag behind together: for each, the offsets from
/// its indexer position to the one that it will give out next.
pub proof fn lags_add_up(store: &ChironStore)
    ensures
        store.lag() == Seq::new(
            store@.shards.len(),
            |i: int|
                (store@.shards[i].oldest + store@.shards[i].records.len()
                    - store.positions()[i]) as nat,
        ).fold_left(0nat, |total: nat, value: nat| total + value),
{
    let behind = Seq::new(
        store@.shards.len(),
        |i: int|
            (store@.shards[i].oldest + store@.shards[i].records.len()
                - store.positions()[i]) as nat,
    );
    assert(lags(store@.shards, store.positions()) =~= behind);
    sums_add_all_values(behind);
}

} // verus!
