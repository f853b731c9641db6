//! Laws of snapshots: what was saved is what is loaded, in both formats.

use crate::codec::{decode_bytes, decode_u32, decode_u64, encode_offsets, encode_records};
use crate::codec_laws::{
    encodable_records, encodable_topics, lemma_stands_split, offsets_round_trip,
    records_round_trip, records_take_room, stands_at, u32_round_trip, u64_round_trip,
};
use crate::kafka_offsets::{apply_topics, distinct, lemma_apply_topics, offset_map, TopicView};
use crate::snapshot::{
    decode_legacy_shard, decode_legacy_shards, decode_shard, decode_shards, decode_snapshot,
    encode_legacy_shard, encode_legacy_shards, encode_legacy_snapshot, encode_shard, encode_shards,
    encode_snapshot, image_capacities, legacy_magic, legacy_share, magic, ShardImage,
    SnapshotContents, SnapshotError,
};
use crate::totals::{lemma_sum_push, sum};
use vstd::bytes::{spec_u32_to_le_bytes, spec_u64_to_le_bytes};
use vstd::prelude::*;

verus! {

/// The shard's strings and its number of records fit their length fields.
pub open spec fn encodable_shard(shard: ShardImage) -> bool {
    shard.records.len() <= usize::MAX && encodable_records(shard.records)
}

pub open spec fn encodable_shards(shards: Seq<ShardImage>) -> bool {
    &&& shards.len() <= u32::MAX
    &&& forall|i: int| 0 <= i < shards.len() ==> encodable_shard(#[trigger] shards[i])
}

proof fn shard_round_trip(data: Seq<u8>, pos: int, shard: ShardImage)
    requires
        stands_at(data, pos, encode_shard(shard)),
        encodable_shard(shard),
    ensures
        decode_shard(data, pos) == Ok::<(ShardImage, int), SnapshotError>(
            (shard, pos + encode_shard(shard).len()),
        ),
{
    let id = spec_u32_to_le_bytes(shard.id);
    let capacity = spec_u64_to_le_bytes(shard.capacity as u64);
    let next_offset = spec_u64_to_le_bytes(shard.next_offset);
    let count = spec_u64_to_le_bytes(shard.records.len() as u64);
    let records = encode_records(shard.records);
    lemma_stands_split(data, pos, id + capacity + next_offset + count, records);
    lemma_stands_split(data, pos, id + capacity + next_offset, count);
    lemma_stands_split(data, pos, id + capacity, next_offset);
    lemma_stands_split(data, pos, id, capacity);
    u32_round_trip(data, pos, shard.id);
    u64_round_trip(data, pos + 4, shard.capacity as u64);
    u64_round_trip(data, pos + 12, shard.next_offset);
    u64_round_trip(data, pos + 20, shard.records.len() as u64);
    records_round_trip(data, pos + 28, shard.records);
}

/// Written shards are read back in their order.
pub proof fn shards_round_trip(data: Seq<u8>, pos: int, shards: Seq<ShardImage>)
    requires
        stands_at(data, pos, encode_shards(shards)),
        forall|i: int| 0 <= i < shards.len() ==> encodable_shard(#[trigger] shards[i]),
    ensures
        decode_shards(data, pos, shards.len()) == Ok::<(Seq<ShardImage>, int), SnapshotError>(
            (shards, pos + encode_shards(shards).len()),
        ),
    decreases shards.len(),
{
    if shards.len() == 0 {
        assert(shards =~= Seq::empty());
    } else {
        let rest = shards.drop_last();
        lemma_stands_split(data, pos, encode_shards(rest), encode_shard(shards.last()));
        assert forall|i: int| 0 <= i < rest.len() implies encodable_shard(#[trigger] rest[i]) by {
            assert(encodable_shard(shards[i]));
        }
        shards_round_trip(data, pos, rest);
        assert(encodable_shard(shards[shards.len() - 1]));
        shard_round_trip(data, pos + encode_shards(rest).len(), shards.last());
        assert(rest.push(shards.last()) =~= shards);
    }
}

proof fn legacy_shard_round_trip(data: Seq<u8>, pos: int, shard: ShardImage, capacity: usize)
    requires
        stands_at(data, pos, encode_legacy_shard(shard)),
        encodable_shard(shard),
    ensures
        decode_legacy_shard(data, pos, capacity) == Ok::<(ShardImage, int), SnapshotError>(
            (ShardImage { capacity, ..shard }, pos + encode_legacy_shard(shard).len()),
        ),
{
    let id = spec_u32_to_le_bytes(shard.id);
    let next_offset = spec_u64_to_le_bytes(shard.next_offset);
    let count = spec_u64_to_le_bytes(shard.records.len() as u64);
    let records = encode_records(shard.records);
    lemma_stands_split(data, pos, id + next_offset + count, records);
    lemma_stands_split(data, pos, id + next_offset, count);
    lemma_stands_split(data, pos, id, next_offset);
    u32_round_trip(data, pos, shard.id);
    u64_round_trip(data, pos + 4, shard.next_offset);
    u64_round_trip(data, pos + 12, shard.records.len() as u64);
    records_round_trip(data, pos + 20, shard.records);
}

/// The shards with the shares into which a total is divided.
pub open spec fn with_legacy_shares(total: usize, count: nat, shards: Seq<ShardImage>) -> Seq<
    ShardImage,
> {
    Seq::new(
        shards.len(),
        |i: int| ShardImage { capacity: legacy_share(total, count, i), ..shards[i] },
    )
}

/// Written legacy shards are read back in their order, with their shares of the total.
pub proof fn legacy_shards_round_trip(
    data: Seq<u8>,
    pos: int,
    total: usize,
    count: nat,
    shards: Seq<ShardImage>,
)
    requires
        stands_at(data, pos, encode_legacy_shards(shards)),
        forall|i: int| 0 <= i < shards.len() ==> encodable_shard(#[trigger] shards[i]),
    ensures
        decode_legacy_shards(data, pos, total, count, shards.len()) == Ok::<
            (Seq<ShardImage>, int),
            SnapshotError,
        >(
            (
                with_legacy_shares(total, count, shards),
                pos + encode_legacy_shards(shards).len(),
            ),
        ),
    decreases shards.len(),
{
    if shards.len() == 0 {
        assert(with_legacy_shares(total, count, shards) =~= Seq::empty());
    } else {
        let rest = shards.drop_last();
        let last = shards.last();
        lemma_stands_split(data, pos, encode_legacy_shards(rest), encode_legacy_shard(last));
        assert forall|i: int| 0 <= i < rest.len() implies encodable_shard(#[trigger] rest[i]) by {
            assert(encodable_shard(shards[i]));
        }
        legacy_shards_round_trip(data, pos, total, count, rest);
        assert(encodable_shard(shards[shards.len() - 1]));
        let share = legacy_share(total, count, shards.len() - 1);
        legacy_shard_round_trip(data, pos + encode_legacy_shards(rest).len(), last, share);
        assert(with_legacy_shares(total, count, rest).push(
            ShardImage { capacity: share, ..last },
        ) =~= with_legacy_shares(total, count, shards));
    }
}

/// A saved snapshot is loaded as it was: the shards with their ids, shares,
/// offsets and live entries, and the Kafka offsets. What stands behind it in the
/// data is ignored.
pub proof fn snapshot_round_trip(
    data: Seq<u8>,
    shards: Seq<ShardImage>,
    topics: Seq<TopicView>,
)
    requires
        stands_at(data, 0, encode_snapshot(shards, topics)),
        encodable_shards(shards),
        encodable_topics(topics),
        sum(image_capacities(shards)) <= usize::MAX,
    ensures
        decode_snapshot(data) == Ok::<SnapshotContents, SnapshotError>(
            SnapshotContents {
                total_capacity: sum(image_capacities(shards)),
                shards,
                topics,
            },
        ),
{
    let count = shards.len() as u32;
    let head = magic() + spec_u32_to_le_bytes(count);
    lemma_stands_split(data, 0, head + encode_shards(shards), encode_offsets(topics));
    lemma_stands_split(data, 0, head, encode_shards(shards));
    lemma_stands_split(data, 0, magic(), spec_u32_to_le_bytes(count));
    u32_round_trip(data, 8, count);
    shards_round_trip(data, 12, shards);
    offsets_round_trip(data, 12int + encode_shards(shards).len(), topics);
}

/// A saved legacy snapshot is loaded as it was, except that the shards get their
/// shares from a division of the total.
pub proof fn legacy_snapshot_round_trip(
    data: Seq<u8>,
    total_capacity: usize,
    shards: Seq<ShardImage>,
    topics: Seq<TopicView>,
)
    requires
        stands_at(data, 0, encode_legacy_snapshot(total_capacity, shards, topics)),
        encodable_shards(shards),
        encodable_topics(topics),
    ensures
        decode_snapshot(data) == Ok::<SnapshotContents, SnapshotError>(
            SnapshotContents {
                total_capacity: total_capacity as nat,
                shards: with_legacy_shares(total_capacity, shards.len(), shards),
                topics,
            },
        ),
{
    let count = shards.len() as u32;
    let total = spec_u64_to_le_bytes(total_capacity as u64);
    let head = legacy_magic() + total + spec_u32_to_le_bytes(count);
    lemma_stands_split(data, 0, head + encode_legacy_shards(shards), encode_offsets(topics));
    lemma_stands_split(data, 0, head, encode_legacy_shards(shards));
    lemma_stands_split(data, 0, legacy_magic() + total, spec_u32_to_le_bytes(count));
    lemma_stands_split(data, 0, legacy_magic(), total);
    u64_round_trip(data, 8, total_capacity as u64);
    u32_round_trip(data, 16, count);
    legacy_shards_round_trip(data, 20, total_capacity, shards.len(), shards);
    offsets_round_trip(data, 20int + encode_legacy_shards(shards).len(), topics);
    assert(legacy_magic()[7] != magic()[7]);
}

/// Kafka offsets that list nothing twice are read back as the map that they are.
pub proof fn listed_offsets_round_trip(topics: Seq<TopicView>)
    requires
        distinct(topics),
    ensures
        apply_topics(Map::empty(), topics) == offset_map(topics),
{
    lemma_apply_topics(Map::empty(), topics);
    assert(Map::<(Seq<char>, u32), u64>::empty().union_prefer_right(offset_map(topics))
        =~= offset_map(topics));
}

/// The shares into which a legacy total is divided add up to the total, and no two
/// of them differ by more than one.
pub proof fn legacy_shares_add_up(total: usize, count: nat)
    requires
        0 < count,
    ensures
        sum(Seq::new(count, |i: int| legacy_share(total, count, i) as nat)) == total,
        forall|i: int, j: int|
            0 <= i <= j < count ==> #[trigger] legacy_share(total, count, j) <= #[trigger]
            legacy_share(total, count, i) <= legacy_share(total, count, j) + 1,
{
    let t = total as int;
    let c = count as int;
    vstd::arithmetic::div_mod::lemma_fundamental_div_mod(t, c);
    let q = t / c;
    assert(0 <= q <= c * q) by (nonlinear_arith)
        requires
            c > 0,
            q == t / c,
            t >= 0,
    ;
    lemma_shares_prefix(total, count, count);
}

/// The sum of the first `done` shares.
proof fn lemma_shares_prefix(total: usize, count: nat, done: nat)
    requires
        0 < count,
        done <= count,
    ensures
        sum(Seq::new(done, |i: int| legacy_share(total, count, i) as nat)) == done * (
        total as nat / count) + if done <= total as nat % count {
            done
        } else {
            total as nat % count
        },
    decreases done,
{
    let t = total as int;
    let c = count as int;
    vstd::arithmetic::div_mod::lemma_fundamental_div_mod(t, c);
    let q = t / c;
    assert(0 <= q <= c * q) by (nonlinear_arith)
        requires
            c > 0,
            q == t / c,
            t >= 0,
    ;
    let shares = Seq::new(done, |i: int| legacy_share(total, count, i) as nat);
    if done == 0 {
        assert(done * q == 0) by (nonlinear_arith)
            requires
                done == 0,
        ;
    } else {
        let fewer = (done - 1) as nat;
        lemma_shares_prefix(total, count, fewer);
        assert(shares.drop_last() =~= Seq::new(
            fewer,
            |i: int| legacy_share(total, count, i) as nat,
        ));
        assert(fewer * q + q == done * q) by (nonlinear_arith)
            requires
                fewer + 1 == done,
        ;
        assert(shares.last() == legacy_share(total, count, fewer as int));
    }
}

/// The number of records of each shard.
pub open spec fn image_lens(shards: Seq<ShardImage>) -> Seq<nat> {
    shards.map_values(|s: ShardImage| s.records.len())
}

proof fn lemma_shard_takes_room(data: Seq<u8>, pos: int)
    requires
        0 <= pos <= data.len(),
    ensures
        decode_shard(data, pos) matches Ok((shard, next)) ==> pos + shard.records.len() <= next
            <= data.len(),
{
    if let Ok((_, p1)) = decode_u32(data, pos) {
        if let Ok((_, p2)) = decode_u64(data, p1) {
            if let Ok((_, p3)) = decode_u64(data, p2) {
                if let Ok((count, p4)) = decode_u64(data, p3) {
                    records_take_room(data, p4, (count as usize) as nat);
                }
            }
        }
    }
}

proof fn lemma_shards_take_room(data: Seq<u8>, pos: int, count: nat)
    requires
        0 <= pos <= data.len(),
    ensures
        decode_shards(data, pos, count) matches Ok((shards, next)) ==> {
            &&& shards.len() == count
            &&& pos + sum(image_lens(shards)) <= next <= data.len()
        },
    decreases count,
{
    if count > 0 {
        let fewer = (count - 1) as nat;
        lemma_shards_take_room(data, pos, fewer);
        if let Ok((rest, p)) = decode_shards(data, pos, fewer) {
            lemma_shard_takes_room(data, p);
            if let Ok((shard, _)) = decode_shard(data, p) {
                assert(image_lens(rest.push(shard)) =~= image_lens(rest).push(
                    shard.records.len(),
                ));
                lemma_sum_push(image_lens(rest), shard.records.len());
            }
        }
    }
}

proof fn lemma_legacy_shards_take_room(
    data: Seq<u8>,
    pos: int,
    total: usize,
    count: nat,
    done: nat,
)
    requires
        0 <= pos <= data.len(),
    ensures
        decode_legacy_shards(data, pos, total, count, done) matches Ok((shards, next)) ==> {
            &&& shards.len() == done
            &&& pos + sum(image_lens(shards)) <= next <= data.len()
            &&& forall|i: int|
                0 <= i < done ==> (#[trigger] shards[i]).capacity == legacy_share(
                    total,
                    count,
                    i,
                )
        },
    decreases done,
{
    if done > 0 {
        let fewer = (done - 1) as nat;
        lemma_legacy_shards_take_room(data, pos, total, count, fewer);
        if let Ok((rest, p)) = decode_legacy_shards(data, pos, total, count, fewer) {
            let share = legacy_share(total, count, fewer as int);
            if let Ok((_, p1)) = decode_u32(data, p) {
                if let Ok((_, p2)) = decode_u64(data, p1) {
                    if let Ok((n, p3)) = decode_u64(data, p2) {
                        records_take_room(data, p3, (n as usize) as nat);
                    }
                }
            }
            if let Ok((shard, _)) = decode_legacy_shard(data, p, share) {
                assert(image_lens(rest.push(shard)) =~= image_lens(rest).push(
                    shard.records.len(),
                ));
                lemma_sum_push(image_lens(rest), shard.records.len());
            }
        }
    }
}

/// Whatever the data, the shards that are loaded hold no more entries than the
/// data has bytes, and their shares add up to the total capacity.
pub proof fn loaded_shards_are_bounded(data: Seq<u8>)
    ensures
        decode_snapshot(data) matches Ok(contents) ==> {
            &&& sum(image_lens(contents.shards)) <= data.len()
            &&& contents.total_capacity <= usize::MAX
            &&& contents.shards.len() > 0 ==> sum(image_capacities(contents.shards))
                == contents.total_capacity
        },
{
    if let Ok((first, pos)) = decode_bytes(data, 0, 8) {
        if first == magic() {
            if let Ok((count, p1)) = decode_u32(data, pos) {
                lemma_shards_take_room(data, p1, (count as usize) as nat);
            }
        } else if first == legacy_magic() {
            if let Ok((total, p1)) = decode_u64(data, pos) {
                if let Ok((count, p2)) = decode_u32(data, p1) {
                    let n = (count as usize) as nat;
                    lemma_legacy_shards_take_room(data, p2, total as usize, n, n);
                    if let Ok((shards, _)) = decode_legacy_shards(data, p2, total as usize, n, n) {
                        if n > 0 {
                            legacy_shares_add_up(total as usize, n);
                            assert(image_capacities(shards) =~= Seq::new(
                                n,
                                |i: int| legacy_share(total as usize, n, i) as nat,
                            ));
                        }
                    }
                }
            }
        }
    }
}

} // verus!
