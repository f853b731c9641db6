//! The layout of snapshots, byte by byte, and what reading says of the bytes.

use crate::codec::{
    decode_offsets, decode_pairs, decode_record, decode_records, decode_string, decode_topic,
    decode_topics, decode_u32, decode_u64, encode_offsets, encode_pairs, encode_record,
    encode_records, encode_string, encode_topic, encode_topics,
};
use crate::codec_laws::{
    encodable_record, encodable_records, encodable_string, encodable_topic, encodable_topics,
    stands_at,
};
use crate::kafka_offsets::{apply_pairs, apply_topics, TopicView};
use crate::log_entry::Record;
use crate::snapshot::{
    decode_current, decode_legacy, decode_shards, decode_snapshot, encode_legacy_shard,
    encode_legacy_shards, encode_legacy_snapshot, encode_shard, encode_shards, encode_snapshot,
    image_capacities, legacy_magic, magic, ShardImage, SnapshotError,
};
use crate::snapshot_laws::{encodable_shard, encodable_shards};
use crate::store_effects::sums_add_all_values;
use vstd::bytes::{
    lemma_auto_spec_u32_to_from_le_bytes, lemma_auto_spec_u64_to_from_le_bytes,
    spec_u32_from_le_bytes, spec_u32_to_le_bytes, spec_u64_to_le_bytes,
};
use vstd::prelude::*;
use vstd::utf8::{decode_utf8_encode_utf8, encode_utf8, valid_utf8};

verus! {

/// A string is written as the number of its UTF-8 bytes in four bytes, lowest first, and
/// then these bytes. A record is its timestamp in eight bytes and then its service, its
/// host and its message.
pub proof fn records_are_laid_out_in_order(text: Seq<char>, record: Record)
    ensures
        encode_string(text) == spec_u32_to_le_bytes(encode_utf8(text).len() as u32) + encode_utf8(
            text,
        ),
        encode_record(record) == spec_u64_to_le_bytes(record.timestamp as u64)
            + spec_u32_to_le_bytes(encode_utf8(record.service).len() as u32) + encode_utf8(
            record.service,
        ) + spec_u32_to_le_bytes(encode_utf8(record.host).len() as u32) + encode_utf8(record.host)
            + spec_u32_to_le_bytes(encode_utf8(record.message).len() as u32) + encode_utf8(
            record.message,
        ),
{
    assert(encode_record(record) =~= spec_u64_to_le_bytes(record.timestamp as u64)
        + spec_u32_to_le_bytes(encode_utf8(record.service).len() as u32) + encode_utf8(
        record.service,
    ) + spec_u32_to_le_bytes(encode_utf8(record.host).len() as u32) + encode_utf8(record.host)
        + spec_u32_to_le_bytes(encode_utf8(record.message).len() as u32) + encode_utf8(
        record.message,
    ));
}

/// Records are written one after the other.
pub proof fn records_follow_each_other(records: Seq<Record>)
    ensures
        encode_records(records) == records.map_values(|r: Record| encode_record(r)).flatten(),
    decreases records.len(),
{
    let f = |r: Record| encode_record(r);
    records.map_values(f).lemma_flatten_and_flatten_alt_are_equivalent();
    if records.len() > 0 {
        let rest = records.drop_last();
        records_follow_each_other(rest);
        rest.map_values(f).lemma_flatten_and_flatten_alt_are_equivalent();
        assert(records.map_values(f).drop_last() =~= rest.map_values(f));
    }
}

proof fn lemma_pairs_follow(pairs: Seq<(u32, u64)>)
    ensures
        encode_pairs(pairs) == pairs.map_values(
            |p: (u32, u64)| spec_u32_to_le_bytes(p.0) + spec_u64_to_le_bytes(p.1),
        ).flatten(),
    decreases pairs.len(),
{
    let f = |p: (u32, u64)| spec_u32_to_le_bytes(p.0) + spec_u64_to_le_bytes(p.1);
    pairs.map_values(f).lemma_flatten_and_flatten_alt_are_equivalent();
    if pairs.len() > 0 {
        let rest = pairs.drop_last();
        lemma_pairs_follow(rest);
        rest.map_values(f).lemma_flatten_and_flatten_alt_are_equivalent();
        assert(pairs.map_values(f).drop_last() =~= rest.map_values(f));
        assert(encode_pairs(pairs) =~= encode_pairs(rest) + f(pairs.last()));
    }
}

proof fn lemma_topics_follow(topics: Seq<TopicView>)
    ensures
        encode_topics(topics) == topics.map_values(|t: TopicView| encode_topic(t)).flatten(),
    decreases topics.len(),
{
    let f = |t: TopicView| encode_topic(t);
    topics.map_values(f).lemma_flatten_and_flatten_alt_are_equivalent();
    if topics.len() > 0 {
        let rest = topics.drop_last();
        lemma_topics_follow(rest);
        rest.map_values(f).lemma_flatten_and_flatten_alt_are_equivalent();
        assert(topics.map_values(f).drop_last() =~= rest.map_values(f));
    }
}

/// Kafka offsets are written as the number of topics and then topic after topic: its name,
/// the number of its partitions, and each partition with its offset.
pub proof fn offsets_are_laid_out_in_order(topics: Seq<TopicView>, topic: TopicView)
    ensures
        encode_offsets(topics) == spec_u32_to_le_bytes(topics.len() as u32) + topics.map_values(
            |t: TopicView| encode_topic(t),
        ).flatten(),
        encode_topic(topic) == encode_string(topic.topic) + spec_u32_to_le_bytes(
            topic.partitions.len() as u32,
        ) + topic.partitions.map_values(
            |p: (u32, u64)| spec_u32_to_le_bytes(p.0) + spec_u64_to_le_bytes(p.1),
        ).flatten(),
{
    lemma_topics_follow(topics);
    lemma_pairs_follow(topic.partitions);
}

proof fn lemma_shards_follow(shards: Seq<ShardImage>)
    ensures
        encode_shards(shards) == shards.map_values(|s: ShardImage| encode_shard(s)).flatten(),
        encode_legacy_shards(shards) == shards.map_values(
            |s: ShardImage| encode_legacy_shard(s),
        ).flatten(),
    decreases shards.len(),
{
    let f = |s: ShardImage| encode_shard(s);
    let g = |s: ShardImage| encode_legacy_shard(s);
    shards.map_values(f).lemma_flatten_and_flatten_alt_are_equivalent();
    shards.map_values(g).lemma_flatten_and_flatten_alt_are_equivalent();
    if shards.len() > 0 {
        let rest = shards.drop_last();
        lemma_shards_follow(rest);
        rest.map_values(f).lemma_flatten_and_flatten_alt_are_equivalent();
        rest.map_values(g).lemma_flatten_and_flatten_alt_are_equivalent();
        assert(shards.map_values(f).drop_last() =~= rest.map_values(f));
        assert(shards.map_values(g).drop_last() =~= rest.map_values(g));
    }
}

/// A snapshot is `CHIRON05`, the number of shards, shard after shard, and the offsets. A
/// shard is its id, its share, its next offset, the number of its records and the records.
pub proof fn snapshots_are_laid_out_in_order(
    shards: Seq<ShardImage>,
    topics: Seq<TopicView>,
    shard: ShardImage,
)
    ensures
        encode_snapshot(shards, topics) == seq![
            'C' as u8,
            'H' as u8,
            'I' as u8,
            'R' as u8,
            'O' as u8,
            'N' as u8,
            '0' as u8,
            '5' as u8,
        ] + spec_u32_to_le_bytes(shards.len() as u32) + shards.map_values(
            |s: ShardImage| encode_shard(s),
        ).flatten() + encode_offsets(topics),
        encode_shard(shard) == spec_u32_to_le_bytes(shard.id) + spec_u64_to_le_bytes(
            shard.capacity as u64,
        ) + spec_u64_to_le_bytes(shard.next_offset) + spec_u64_to_le_bytes(
            shard.records.len() as u64,
        ) + shard.records.map_values(|r: Record| encode_record(r)).flatten(),
{
    lemma_shards_follow(shards);
    records_follow_each_other(shard.records);
    assert(magic() =~= seq![
        'C' as u8,
        'H' as u8,
        'I' as u8,
        'R' as u8,
        'O' as u8,
        'N' as u8,
        '0' as u8,
        '5' as u8,
    ]);
}

/// A legacy snapshot is `CHIRON04`, the total capacity, the number of shards, shard after
/// shard without its share, and the offsets.
pub proof fn legacy_snapshots_are_laid_out_in_order(
    total_capacity: usize,
    shards: Seq<ShardImage>,
    topics: Seq<TopicView>,
    shard: ShardImage,
)
    ensures
        encode_legacy_snapshot(total_capacity, shards, topics) == seq![
            'C' as u8,
            'H' as u8,
            'I' as u8,
            'R' as u8,
            'O' as u8,
            'N' as u8,
            '0' as u8,
            '4' as u8,
        ] + spec_u64_to_le_bytes(total_capacity as u64) + spec_u32_to_le_bytes(shards.len() as u32)
            + shards.map_values(|s: ShardImage| encode_legacy_shard(s)).flatten() + encode_offsets(
            topics,
        ),
        encode_legacy_shard(shard) == spec_u32_to_le_bytes(shard.id) + spec_u64_to_le_bytes(
            shard.next_offset,
        ) + spec_u64_to_le_bytes(shard.records.len() as u64) + shard.records.map_values(
            |r: Record| encode_record(r),
        ).flatten(),
{
    lemma_shards_follow(shards);
    records_follow_each_other(shard.records);
    assert(legacy_magic() =~= seq![
        'C' as u8,
        'H' as u8,
        'I' as u8,
        'R' as u8,
        'O' as u8,
        'N' as u8,
        '0' as u8,
        '4' as u8,
    ]);
}

/// What stands part after part stands as a whole.
proof fn lemma_stands_joined(data: Seq<u8>, pos: int, a: Seq<u8>, b: Seq<u8>)
    requires
        stands_at(data, pos, a),
        stands_at(data, pos + a.len(), b),
    ensures
        stands_at(data, pos, a + b),
{
    let left = data.subrange(pos, pos + a.len());
    let right = data.subrange(pos + a.len(), pos + a.len() + b.len());
    assert forall|i: int| 0 <= i < (a + b).len() implies data[pos + i] == (a + b)[i] by {
        if i < a.len() {
            assert(left[i] == a[i]);
        } else {
            assert(right[i - a.len()] == b[i - a.len()]);
        }
    }
    assert(data.subrange(pos, pos + (a + b).len()) =~= a + b);
}

/// A number that is read stands there, and it is read exactly if the bytes for it are
/// there.
pub proof fn read_numbers_stand_there(data: Seq<u8>, pos: int)
    requires
        0 <= pos <= data.len(),
    ensures
        match decode_u32(data, pos) {
            Ok((value, next)) => next == pos + 4 && stands_at(
                data,
                pos,
                spec_u32_to_le_bytes(value),
            ),
            Err(e) => e == SnapshotError::UnexpectedEof && data.len() < pos + 4,
        },
        match decode_u64(data, pos) {
            Ok((value, next)) => next == pos + 8 && stands_at(
                data,
                pos,
                spec_u64_to_le_bytes(value),
            ),
            Err(e) => e == SnapshotError::UnexpectedEof && data.len() < pos + 8,
        },
{
    lemma_auto_spec_u32_to_from_le_bytes();
    lemma_auto_spec_u64_to_from_le_bytes();
}

/// A string that is read stands there. It is not read exactly if the data ends before it
/// does, or if its bytes are not UTF-8.
pub proof fn read_strings_stand_there(data: Seq<u8>, pos: int)
    requires
        0 <= pos <= data.len(),
    ensures
        match decode_string(data, pos) {
            Ok((text, next)) => {
                &&& next == pos + 4 + encode_utf8(text).len()
                &&& encode_utf8(text).len() <= u32::MAX
                &&& stands_at(
                    data,
                    pos,
                    spec_u32_to_le_bytes(encode_utf8(text).len() as u32) + encode_utf8(text),
                )
            },
            Err(e) => if data.len() < pos + 4 {
                e == SnapshotError::UnexpectedEof
            } else {
                let len = spec_u32_from_le_bytes(data.subrange(pos, pos + 4));
                if data.len() < pos + 4 + len {
                    e == SnapshotError::UnexpectedEof
                } else {
                    &&& e == SnapshotError::InvalidUtf8
                    &&& !valid_utf8(data.subrange(pos + 4, pos + 4 + len))
                }
            },
        },
{
    read_numbers_stand_there(data, pos);
    if let Ok((text, next)) = decode_string(data, pos) {
        let len = spec_u32_from_le_bytes(data.subrange(pos, pos + 4));
        let bytes = data.subrange(pos + 4, pos + 4 + len);
        decode_utf8_encode_utf8(bytes);
        assert(encode_utf8(text) == bytes);
        lemma_auto_spec_u32_to_from_le_bytes();
        lemma_stands_joined(data, pos, spec_u32_to_le_bytes(len), bytes);
    }
}

/// A record that is read stands there.
pub proof fn read_records_stand_there(data: Seq<u8>, pos: int)
    requires
        0 <= pos <= data.len(),
    ensures
        decode_record(data, pos) matches Ok((record, next)) ==> {
            &&& next == pos + encode_record(record).len()
            &&& stands_at(data, pos, encode_record(record))
        },
{
    if let Ok((record, next)) = decode_record(data, pos) {
        read_numbers_stand_there(data, pos);
        lemma_auto_spec_u64_to_from_le_bytes();
        lemma_auto_spec_u32_to_from_le_bytes();
        let written = decode_u64(data, pos)->Ok_0.0;
        assert((written as i64) as u64 == written) by (bit_vector);
        let timestamp = spec_u64_to_le_bytes(record.timestamp as u64);
        let p1 = pos + 8;
        read_strings_stand_there(data, p1);
        let p2 = p1 + encode_string(record.service).len();
        read_strings_stand_there(data, p2);
        let p3 = p2 + encode_string(record.host).len();
        read_strings_stand_there(data, p3);
        lemma_stands_joined(data, pos, timestamp, encode_string(record.service));
        lemma_stands_joined(
            data,
            pos,
            timestamp + encode_string(record.service),
            encode_string(record.host),
        );
        lemma_stands_joined(
            data,
            pos,
            timestamp + encode_string(record.service) + encode_string(record.host),
            encode_string(record.message),
        );
    }
}

/// Records that are read stand there, as many as asked for.
pub proof fn read_record_runs_stand_there(data: Seq<u8>, pos: int, count: nat)
    requires
        0 <= pos <= data.len(),
    ensures
        decode_records(data, pos, count) matches Ok((records, next)) ==> {
            &&& records.len() == count
            &&& next == pos + encode_records(records).len()
            &&& stands_at(data, pos, encode_records(records))
        },
    decreases count,
{
    if let Ok((records, next)) = decode_records(data, pos, count) {
        if count == 0 {
            assert(data.subrange(pos, pos) =~= Seq::empty());
        } else {
            read_record_runs_stand_there(data, pos, (count - 1) as nat);
            let rest = records.drop_last();
            let (before, p) = decode_records(data, pos, (count - 1) as nat)->Ok_0;
            assert(rest =~= before);
            read_records_stand_there(data, p);
            lemma_stands_joined(data, pos, encode_records(rest), encode_record(records.last()));
        }
    }
}

proof fn lemma_read_pairs(data: Seq<u8>, pos: int, count: nat)
    requires
        0 <= pos <= data.len(),
    ensures
        decode_pairs(data, pos, count) matches Ok((pairs, next)) ==> {
            &&& pairs.len() == count
            &&& next == pos + encode_pairs(pairs).len()
            &&& stands_at(data, pos, encode_pairs(pairs))
        },
    decreases count,
{
    if let Ok((pairs, next)) = decode_pairs(data, pos, count) {
        if count == 0 {
            assert(data.subrange(pos, pos) =~= Seq::empty());
        } else {
            lemma_read_pairs(data, pos, (count - 1) as nat);
            let rest = pairs.drop_last();
            let (before, p) = decode_pairs(data, pos, (count - 1) as nat)->Ok_0;
            assert(rest =~= before);
            read_numbers_stand_there(data, p);
            read_numbers_stand_there(data, p + 4);
            lemma_auto_spec_u32_to_from_le_bytes();
            lemma_auto_spec_u64_to_from_le_bytes();
            let last = pairs.last();
            lemma_stands_joined(data, pos, encode_pairs(rest), spec_u32_to_le_bytes(last.0));
            lemma_stands_joined(
                data,
                pos,
                encode_pairs(rest) + spec_u32_to_le_bytes(last.0),
                spec_u64_to_le_bytes(last.1),
            );
        }
    }
}

/// A group of offsets that is read stands there.
pub proof fn read_topics_stand_there(data: Seq<u8>, pos: int)
    requires
        0 <= pos <= data.len(),
    ensures
        decode_topic(data, pos) matches Ok((topic, next)) ==> {
            &&& next == pos + encode_topic(topic).len()
            &&& stands_at(data, pos, encode_topic(topic))
        },
{
    if let Ok((topic, next)) = decode_topic(data, pos) {
        read_strings_stand_there(data, pos);
        lemma_auto_spec_u32_to_from_le_bytes();
        let name = encode_string(topic.topic);
        let p = pos + name.len();
        read_numbers_stand_there(data, p);
        let count = decode_u32(data, p)->Ok_0.0;
        lemma_read_pairs(data, p + 4, (count as usize) as nat);
        lemma_stands_joined(data, pos, name, spec_u32_to_le_bytes(count));
        lemma_stands_joined(
            data,
            pos,
            name + spec_u32_to_le_bytes(count),
            encode_pairs(topic.partitions),
        );
    }
}

proof fn lemma_read_topics(data: Seq<u8>, pos: int, count: nat)
    requires
        0 <= pos <= data.len(),
    ensures
        decode_topics(data, pos, count) matches Ok((topics, next)) ==> {
            &&& topics.len() == count
            &&& next == pos + encode_topics(topics).len()
            &&& stands_at(data, pos, encode_topics(topics))
        },
    decreases count,
{
    if let Ok((topics, next)) = decode_topics(data, pos, count) {
        if count == 0 {
            assert(data.subrange(pos, pos) =~= Seq::empty());
        } else {
            lemma_read_topics(data, pos, (count - 1) as nat);
            let rest = topics.drop_last();
            let (before, p) = decode_topics(data, pos, (count - 1) as nat)->Ok_0;
            assert(rest =~= before);
            read_topics_stand_there(data, p);
            lemma_stands_joined(data, pos, encode_topics(rest), encode_topic(topics.last()));
        }
    }
}

/// Offsets that are read stand there.
pub proof fn read_offsets_stand_there(data: Seq<u8>, pos: int)
    requires
        0 <= pos <= data.len(),
    ensures
        decode_offsets(data, pos) matches Ok((topics, next)) ==> {
            &&& next == pos + encode_offsets(topics).len()
            &&& stands_at(data, pos, encode_offsets(topics))
        },
{
    if let Ok((topics, next)) = decode_offsets(data, pos) {
        read_numbers_stand_there(data, pos);
        lemma_auto_spec_u32_to_from_le_bytes();
        let count = decode_u32(data, pos)->Ok_0.0;
        lemma_read_topics(data, pos + 4, (count as usize) as nat);
        lemma_stands_joined(data, pos, spec_u32_to_le_bytes(count), encode_topics(topics));
    }
}

/// Offsets that are read are set one after the other, so that of two for one partition the
/// later counts.
pub proof fn read_offsets_are_set_in_order(
    map: Map<(Seq<char>, u32), u64>,
    topics: Seq<TopicView>,
    group: TopicView,
    pairs: Seq<(u32, u64)>,
    pair: (u32, u64),
)
    ensures
        apply_topics(map, Seq::empty()) == map,
        apply_topics(map, topics.push(group)) == apply_pairs(
            apply_topics(map, topics),
            group.topic,
            group.partitions,
        ),
        apply_pairs(map, group.topic, Seq::empty()) == map,
        apply_pairs(map, group.topic, pairs.push(pair)) == apply_pairs(
            map,
            group.topic,
            pairs,
        ).insert((group.topic, pair.0), pair.1),
{
    assert(topics.push(group).drop_last() =~= topics);
    assert(pairs.push(pair).drop_last() =~= pairs);
}

/// The first eight bytes of the data say what it is: a snapshot, a legacy snapshot, or
/// neither, and then nothing else is looked at.
pub proof fn snapshots_begin_with_their_magic(data: Seq<u8>)
    ensures
        data.len() < 8 ==> (decode_snapshot(data) matches Err(e) && e
            == SnapshotError::UnexpectedEof),
        data.len() >= 8 && data.take(8) == seq![
            'C' as u8,
            'H' as u8,
            'I' as u8,
            'R' as u8,
            'O' as u8,
            'N' as u8,
            '0' as u8,
            '5' as u8,
        ] ==> decode_snapshot(data) == decode_current(data, 8),
        data.len() >= 8 && data.take(8) == seq![
            'C' as u8,
            'H' as u8,
            'I' as u8,
            'R' as u8,
            'O' as u8,
            'N' as u8,
            '0' as u8,
            '4' as u8,
        ] ==> decode_snapshot(data) == decode_legacy(data, 8),
        data.len() >= 8 && data.take(7) != seq![
            'C' as u8,
            'H' as u8,
            'I' as u8,
            'R' as u8,
            'O' as u8,
            'N' as u8,
            '0' as u8,
        ] ==> (decode_snapshot(data) matches Err(e) && e == SnapshotError::InvalidMagic),
        data.len() >= 8 && data[7] != '4' as u8 && data[7] != '5' as u8 ==> (decode_snapshot(
            data,
        ) matches Err(e) && e == SnapshotError::InvalidMagic),
{
    if data.len() >= 8 {
        let first = data.subrange(0, 8);
        assert(data.take(8) =~= first);
        let common = seq![
            'C' as u8,
            'H' as u8,
            'I' as u8,
            'R' as u8,
            'O' as u8,
            'N' as u8,
            '0' as u8,
        ];
        assert(magic() =~= common.push('5' as u8));
        assert(legacy_magic() =~= common.push('4' as u8));
        assert(data.take(7) =~= first.take(7));
        assert(magic().take(7) =~= common);
        assert(legacy_magic().take(7) =~= common);
        assert(first[7] == data[7]);
    }
}

/// The capacity of a snapshot that is read is the sum of its shards' shares; a sum that is
/// no `usize` is refused.
pub proof fn capacities_of_shards_add_up(data: Seq<u8>, pos: int)
    ensures
        decode_current(data, pos) matches Ok(contents) ==> {
            &&& contents.total_capacity == image_capacities(contents.shards).fold_left(
                0nat,
                |total: nat, value: nat| total + value,
            )
            &&& contents.total_capacity <= usize::MAX
        },
        (decode_current(data, pos) matches Err(e) && e == SnapshotError::CapacityOverflow) ==> {
            &&& decode_u32(data, pos) matches Ok((count, p))
            &&& decode_shards(data, p, (count as usize) as nat) matches Ok((shards, q))
            &&& decode_offsets(data, q) is Ok
            &&& image_capacities(shards).fold_left(0nat, |total: nat, value: nat| total + value)
                > usize::MAX
        },
{
    if let Ok((count, p)) = decode_u32(data, pos) {
        lemma_shard_errors(data, p, (count as usize) as nat);
        if let Ok((shards, q)) = decode_shards(data, p, (count as usize) as nat) {
            sums_add_all_values(image_capacities(shards));
            lemma_offset_errors(data, q);
        }
    }
}

proof fn lemma_record_errors(data: Seq<u8>, pos: int, count: nat)
    ensures
        decode_records(data, pos, count) matches Err(e) ==> e != SnapshotError::CapacityOverflow,
    decreases count,
{
    if count > 0 {
        lemma_record_errors(data, pos, (count - 1) as nat);
    }
}

proof fn lemma_shard_errors(data: Seq<u8>, pos: int, count: nat)
    ensures
        decode_shards(data, pos, count) matches Err(e) ==> e != SnapshotError::CapacityOverflow,
    decreases count,
{
    if count > 0 {
        lemma_shard_errors(data, pos, (count - 1) as nat);
        if let Ok((_, p)) = decode_shards(data, pos, (count - 1) as nat) {
            let records = decode_u64(data, p + 20);
            if let Ok((n, q)) = records {
                lemma_record_errors(data, q, (n as usize) as nat);
            }
        }
    }
}

proof fn lemma_pair_errors(data: Seq<u8>, pos: int, count: nat)
    ensures
        decode_pairs(data, pos, count) matches Err(e) ==> e != SnapshotError::CapacityOverflow,
    decreases count,
{
    if count > 0 {
        lemma_pair_errors(data, pos, (count - 1) as nat);
    }
}

proof fn lemma_topic_errors(data: Seq<u8>, pos: int, count: nat)
    ensures
        decode_topics(data, pos, count) matches Err(e) ==> e != SnapshotError::CapacityOverflow,
    decreases count,
{
    if count > 0 {
        lemma_topic_errors(data, pos, (count - 1) as nat);
        if let Ok((_, p)) = decode_topics(data, pos, (count - 1) as nat) {
            if let Ok((_, q)) = decode_string(data, p) {
                if let Ok((n, r)) = decode_u32(data, q) {
                    lemma_pair_errors(data, r, (n as usize) as nat);
                }
            }
        }
    }
}

proof fn lemma_offset_errors(data: Seq<u8>, pos: int)
    ensures
        decode_offsets(data, pos) matches Err(e) ==> e != SnapshotError::CapacityOverflow,
{
    if let Ok((count, p)) = decode_u32(data, pos) {
        lemma_topic_errors(data, p, (count as usize) as nat);
    }
}

/// Whatever fits the length fields can be written: strings of up to `u32::MAX` bytes, and
/// up to as many topics, partitions and shards, with any number of records that a shard
/// can hold.
pub proof fn length_fields_are_the_only_limits(
    text: Seq<char>,
    record: Record,
    records: Seq<Record>,
    topic: TopicView,
    topics: Seq<TopicView>,
    shard: ShardImage,
    shards: Seq<ShardImage>,
)
    ensures
        encodable_string(text) <==> encode_utf8(text).len() <= u32::MAX,
        encodable_record(record) <==> {
            &&& encode_utf8(record.service).len() <= u32::MAX
            &&& encode_utf8(record.host).len() <= u32::MAX
            &&& encode_utf8(record.message).len() <= u32::MAX
        },
        encodable_records(records) <==> forall|i: int|
            0 <= i < records.len() ==> encodable_record(#[trigger] records[i]),
        encodable_topic(topic) <==> {
            &&& encode_utf8(topic.topic).len() <= u32::MAX
            &&& topic.partitions.len() <= u32::MAX
        },
        encodable_topics(topics) <==> {
            &&& topics.len() <= u32::MAX
            &&& forall|i: int| 0 <= i < topics.len() ==> encodable_topic(#[trigger] topics[i])
        },
        encodable_shard(shard) <==> {
            &&& shard.records.len() <= usize::MAX
            &&& forall|i: int|
                0 <= i < shard.records.len() ==> encodable_record(#[trigger] shard.records[i])
        },
        encodable_shards(shards) <==> {
            &&& shards.len() <= u32::MAX
            &&& forall|i: int| 0 <= i < shards.len() ==> encodable_shard(#[trigger] shards[i])
        },
{
}

} // verus!
