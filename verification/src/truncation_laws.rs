//! Laws of snapshots that were cut short: no strict prefix of a snapshot is taken for
//! a snapshot.

use crate::codec::{
    decode_bytes, decode_offsets, decode_pairs, decode_record, decode_records, decode_string,
    decode_topic, decode_topics, decode_u32, decode_u64, encode_offsets, Decoded,
};
use crate::codec_laws::{
    encodable_topics, lemma_stands_split, offsets_round_trip, u32_round_trip, u64_round_trip,
};
use crate::kafka_offsets::TopicView;
use crate::snapshot::{
    decode_legacy_shard, decode_legacy_shards, decode_shard, decode_shards, decode_snapshot,
    encode_legacy_shards, encode_legacy_snapshot, encode_shards, encode_snapshot,
    legacy_magic, legacy_share, magic, ShardImage, SnapshotContents,
    SnapshotError,
};
use crate::snapshot_laws::{encodable_shards, legacy_shards_round_trip, shards_round_trip};
use vstd::bytes::{spec_u32_to_le_bytes, spec_u64_to_le_bytes};
use vstd::prelude::*;

verus! {

/// What a decoding at `pos` gives of the first `end` bytes of some data, if it gives
/// `whole` of all of them: the same where it ends within them, and otherwise the error
/// that the data ends too early.
pub open spec fn cut<T>(pos: int, end: int, whole: Decoded<T>, short: Decoded<T>) -> bool {
    whole matches Ok((value, next)) ==> {
        &&& pos <= next
        &&& short == if next <= end {
            Ok::<(T, int), SnapshotError>((value, next))
        } else {
            Err::<(T, int), SnapshotError>(SnapshotError::UnexpectedEof)
        }
    }
}

proof fn lemma_cut_bytes(data: Seq<u8>, end: int, pos: int, count: nat)
    requires
        0 <= pos <= end <= data.len(),
    ensures
        cut(
            pos,
            end,
            decode_bytes(data, pos, count),
            decode_bytes(data.take(end), pos, count),
        ),
{
    if pos + count <= end {
        assert(data.take(end).subrange(pos, pos + count) =~= data.subrange(pos, pos + count));
    }
}

proof fn lemma_cut_u32(data: Seq<u8>, end: int, pos: int)
    requires
        0 <= pos <= end <= data.len(),
    ensures
        cut(pos, end, decode_u32(data, pos), decode_u32(data.take(end), pos)),
{
    lemma_cut_bytes(data, end, pos, 4);
}

proof fn lemma_cut_u64(data: Seq<u8>, end: int, pos: int)
    requires
        0 <= pos <= end <= data.len(),
    ensures
        cut(pos, end, decode_u64(data, pos), decode_u64(data.take(end), pos)),
{
    lemma_cut_bytes(data, end, pos, 8);
}

proof fn lemma_cut_string(data: Seq<u8>, end: int, pos: int)
    requires
        0 <= pos <= end <= data.len(),
    ensures
        cut(pos, end, decode_string(data, pos), decode_string(data.take(end), pos)),
{
    lemma_cut_u32(data, end, pos);
    if let Ok((len, start)) = decode_u32(data, pos) {
        if start <= end {
            lemma_cut_bytes(data, end, start, (len as usize) as nat);
        }
    }
}

proof fn lemma_cut_record(data: Seq<u8>, end: int, pos: int)
    requires
        0 <= pos <= end <= data.len(),
    ensures
        cut(pos, end, decode_record(data, pos), decode_record(data.take(end), pos)),
{
    lemma_cut_u64(data, end, pos);
    if let Ok((_, p1)) = decode_u64(data, pos) {
        lemma_string_advances(data, p1);
        if p1 <= end {
            lemma_cut_string(data, end, p1);
        }
        if let Ok((_, p2)) = decode_string(data, p1) {
            lemma_string_advances(data, p2);
            if p2 <= end {
                lemma_cut_string(data, end, p2);
            }
            if let Ok((_, p3)) = decode_string(data, p2) {
                lemma_string_advances(data, p3);
                if p3 <= end {
                    lemma_cut_string(data, end, p3);
                }
            }
        }
    }
}

proof fn lemma_string_advances(data: Seq<u8>, pos: int)
    ensures
        decode_string(data, pos) matches Ok((_, next)) ==> pos < next,
{
}

proof fn lemma_record_advances(data: Seq<u8>, pos: int)
    ensures
        decode_record(data, pos) matches Ok((_, next)) ==> pos < next,
{
}

proof fn lemma_cut_records(data: Seq<u8>, end: int, pos: int, count: nat)
    requires
        0 <= pos <= end <= data.len(),
    ensures
        cut(
            pos,
            end,
            decode_records(data, pos, count),
            decode_records(data.take(end), pos, count),
        ),
    decreases count,
{
    if count > 0 {
        let fewer = (count - 1) as nat;
        lemma_cut_records(data, end, pos, fewer);
        if let Ok((_, p)) = decode_records(data, pos, fewer) {
            lemma_record_advances(data, p);
            if p <= end {
                lemma_cut_record(data, end, p);
            }
        }
    }
}

proof fn lemma_cut_pairs(data: Seq<u8>, end: int, pos: int, count: nat)
    requires
        0 <= pos <= end <= data.len(),
    ensures
        cut(
            pos,
            end,
            decode_pairs(data, pos, count),
            decode_pairs(data.take(end), pos, count),
        ),
    decreases count,
{
    if count > 0 {
        let fewer = (count - 1) as nat;
        lemma_cut_pairs(data, end, pos, fewer);
        if let Ok((_, p)) = decode_pairs(data, pos, fewer) {
            if p <= end {
                lemma_cut_u32(data, end, p);
            }
            if let Ok((_, q)) = decode_u32(data, p) {
                if q <= end {
                    lemma_cut_u64(data, end, q);
                }
            }
        }
    }
}

proof fn lemma_pairs_advance(data: Seq<u8>, pos: int, count: nat)
    ensures
        decode_pairs(data, pos, count) matches Ok((_, next)) ==> pos <= next,
    decreases count,
{
    if count > 0 {
        lemma_pairs_advance(data, pos, (count - 1) as nat);
    }
}

proof fn lemma_topic_advances(data: Seq<u8>, pos: int)
    ensures
        decode_topic(data, pos) matches Ok((_, next)) ==> pos < next,
{
    if let Ok((_, p)) = decode_string(data, pos) {
        if let Ok((count, q)) = decode_u32(data, p) {
            lemma_pairs_advance(data, q, (count as usize) as nat);
        }
    }
}

proof fn lemma_cut_topic(data: Seq<u8>, end: int, pos: int)
    requires
        0 <= pos <= end <= data.len(),
    ensures
        cut(pos, end, decode_topic(data, pos), decode_topic(data.take(end), pos)),
{
    lemma_topic_advances(data, pos);
    lemma_cut_string(data, end, pos);
    if let Ok((_, p)) = decode_string(data, pos) {
        if p <= end {
            lemma_cut_u32(data, end, p);
        }
        if let Ok((count, q)) = decode_u32(data, p) {
            lemma_pairs_advance(data, q, (count as usize) as nat);
            if q <= end {
                lemma_cut_pairs(data, end, q, (count as usize) as nat);
            }
        }
    }
}

proof fn lemma_topics_advance(data: Seq<u8>, pos: int, count: nat)
    ensures
        decode_topics(data, pos, count) matches Ok((_, next)) ==> pos <= next,
    decreases count,
{
    if count > 0 {
        let fewer = (count - 1) as nat;
        lemma_topics_advance(data, pos, fewer);
        if let Ok((_, p)) = decode_topics(data, pos, fewer) {
            lemma_topic_advances(data, p);
        }
    }
}

proof fn lemma_cut_topics(data: Seq<u8>, end: int, pos: int, count: nat)
    requires
        0 <= pos <= end <= data.len(),
    ensures
        cut(
            pos,
            end,
            decode_topics(data, pos, count),
            decode_topics(data.take(end), pos, count),
        ),
    decreases count,
{
    if count > 0 {
        let fewer = (count - 1) as nat;
        lemma_cut_topics(data, end, pos, fewer);
        if let Ok((_, p)) = decode_topics(data, pos, fewer) {
            lemma_topic_advances(data, p);
            if p <= end {
                lemma_cut_topic(data, end, p);
            }
        }
    }
}

proof fn lemma_cut_offsets(data: Seq<u8>, end: int, pos: int)
    requires
        0 <= pos <= end <= data.len(),
    ensures
        cut(pos, end, decode_offsets(data, pos), decode_offsets(data.take(end), pos)),
{
    lemma_cut_u32(data, end, pos);
    if let Ok((count, p)) = decode_u32(data, pos) {
        lemma_topics_advance(data, p, (count as usize) as nat);
        if p <= end {
            lemma_cut_topics(data, end, p, (count as usize) as nat);
        }
    }
}

proof fn lemma_records_advance(data: Seq<u8>, pos: int, count: nat)
    ensures
        decode_records(data, pos, count) matches Ok((_, next)) ==> pos <= next,
    decreases count,
{
    if count > 0 {
        let fewer = (count - 1) as nat;
        lemma_records_advance(data, pos, fewer);
        if let Ok((_, p)) = decode_records(data, pos, fewer) {
            lemma_record_advances(data, p);
        }
    }
}

proof fn lemma_shard_advances(data: Seq<u8>, pos: int, capacity: usize)
    ensures
        decode_shard(data, pos) matches Ok((_, next)) ==> pos < next,
        decode_legacy_shard(data, pos, capacity) matches Ok((_, next)) ==> pos < next,
{
    if let Ok((_, p1)) = decode_u32(data, pos) {
        if let Ok((_, p2)) = decode_u64(data, p1) {
            if let Ok((second, p3)) = decode_u64(data, p2) {
                lemma_records_advance(data, p3, (second as usize) as nat);
                if let Ok((third, p4)) = decode_u64(data, p3) {
                    lemma_records_advance(data, p4, (third as usize) as nat);
                }
            }
        }
    }
}

proof fn lemma_cut_shard(data: Seq<u8>, end: int, pos: int, capacity: usize)
    requires
        0 <= pos <= end <= data.len(),
    ensures
        cut(pos, end, decode_shard(data, pos), decode_shard(data.take(end), pos)),
        cut(
            pos,
            end,
            decode_legacy_shard(data, pos, capacity),
            decode_legacy_shard(data.take(end), pos, capacity),
        ),
{
    lemma_shard_advances(data, pos, capacity);
    lemma_cut_u32(data, end, pos);
    if let Ok((_, p1)) = decode_u32(data, pos) {
        if p1 <= end {
            lemma_cut_u64(data, end, p1);
        }
        if let Ok((_, p2)) = decode_u64(data, p1) {
            if p2 <= end {
                lemma_cut_u64(data, end, p2);
            }
            if let Ok((second, p3)) = decode_u64(data, p2) {
                lemma_records_advance(data, p3, (second as usize) as nat);
                if p3 <= end {
                    lemma_cut_u64(data, end, p3);
                    lemma_cut_records(data, end, p3, (second as usize) as nat);
                }
                if let Ok((third, p4)) = decode_u64(data, p3) {
                    lemma_records_advance(data, p4, (third as usize) as nat);
                    if p4 <= end {
                        lemma_cut_records(data, end, p4, (third as usize) as nat);
                    }
                }
            }
        }
    }
}

proof fn lemma_cut_shards(data: Seq<u8>, end: int, pos: int, count: nat)
    requires
        0 <= pos <= end <= data.len(),
    ensures
        cut(
            pos,
            end,
            decode_shards(data, pos, count),
            decode_shards(data.take(end), pos, count),
        ),
    decreases count,
{
    if count > 0 {
        let fewer = (count - 1) as nat;
        lemma_cut_shards(data, end, pos, fewer);
        if let Ok((_, p)) = decode_shards(data, pos, fewer) {
            lemma_shard_advances(data, p, 0);
            if p <= end {
                lemma_cut_shard(data, end, p, 0);
            }
        }
    }
}

proof fn lemma_cut_legacy_shards(
    data: Seq<u8>,
    end: int,
    pos: int,
    total: usize,
    count: nat,
    done: nat,
)
    requires
        0 <= pos <= end <= data.len(),
    ensures
        cut(
            pos,
            end,
            decode_legacy_shards(data, pos, total, count, done),
            decode_legacy_shards(data.take(end), pos, total, count, done),
        ),
    decreases done,
{
    if done > 0 {
        let fewer = (done - 1) as nat;
        let share = legacy_share(total, count, done - 1);
        lemma_cut_legacy_shards(data, end, pos, total, count, fewer);
        if let Ok((_, p)) = decode_legacy_shards(data, pos, total, count, fewer) {
            lemma_shard_advances(data, p, share);
            if p <= end {
                lemma_cut_shard(data, end, p, share);
            }
        }
    }
}

/// A snapshot that was cut short, wherever it was, is refused.
pub proof fn truncated_snapshot_is_refused(
    shards: Seq<ShardImage>,
    topics: Seq<TopicView>,
    end: int,
)
    requires
        encodable_shards(shards),
        encodable_topics(topics),
        0 <= end < encode_snapshot(shards, topics).len(),
    ensures
        decode_snapshot(encode_snapshot(shards, topics).take(end)) == Err::<
            SnapshotContents,
            SnapshotError,
        >(SnapshotError::UnexpectedEof),
{
    let data = encode_snapshot(shards, topics);
    let count = shards.len() as u32;
    let head = magic() + spec_u32_to_le_bytes(count);
    assert(data.subrange(0, data.len() as int) =~= data);
    lemma_stands_split(data, 0, head + encode_shards(shards), encode_offsets(topics));
    lemma_stands_split(data, 0, head, encode_shards(shards));
    lemma_stands_split(data, 0, magic(), spec_u32_to_le_bytes(count));
    u32_round_trip(data, 8, count);
    shards_round_trip(data, 12, shards);
    let p2 = 12int + encode_shards(shards).len();
    offsets_round_trip(data, p2, topics);
    lemma_cut_bytes(data, end, 0, 8);
    if 8 <= end {
        lemma_cut_u32(data, end, 8);
        if 12 <= end {
            lemma_cut_shards(data, end, 12, shards.len());
            if p2 <= end {
                lemma_cut_offsets(data, end, p2);
            }
        }
    }
}

/// So is a legacy snapshot that was cut short.
pub proof fn truncated_legacy_snapshot_is_refused(
    total_capacity: usize,
    shards: Seq<ShardImage>,
    topics: Seq<TopicView>,
    end: int,
)
    requires
        encodable_shards(shards),
        encodable_topics(topics),
        0 <= end < encode_legacy_snapshot(total_capacity, shards, topics).len(),
    ensures
        decode_snapshot(encode_legacy_snapshot(total_capacity, shards, topics).take(end)) == Err::<
            SnapshotContents,
            SnapshotError,
        >(SnapshotError::UnexpectedEof),
{
    let data = encode_legacy_snapshot(total_capacity, shards, topics);
    let count = shards.len() as u32;
    let total = spec_u64_to_le_bytes(total_capacity as u64);
    let head = legacy_magic() + total + spec_u32_to_le_bytes(count);
    assert(data.subrange(0, data.len() as int) =~= data);
    lemma_stands_split(data, 0, head + encode_legacy_shards(shards), encode_offsets(topics));
    lemma_stands_split(data, 0, head, encode_legacy_shards(shards));
    lemma_stands_split(data, 0, legacy_magic() + total, spec_u32_to_le_bytes(count));
    lemma_stands_split(data, 0, legacy_magic(), total);
    u64_round_trip(data, 8, total_capacity as u64);
    u32_round_trip(data, 16, count);
    legacy_shards_round_trip(data, 20, total_capacity, shards.len(), shards);
    let p3 = 20int + encode_legacy_shards(shards).len();
    offsets_round_trip(data, p3, topics);
    assert(legacy_magic()[7] != magic()[7]);
    lemma_cut_bytes(data, end, 0, 8);
    if 8 <= end {
        lemma_cut_u64(data, end, 8);
        if 16 <= end {
            lemma_cut_u32(data, end, 16);
            if 20 <= end {
                lemma_cut_legacy_shards(
                    data,
                    end,
                    20,
                    total_capacity,
                    shards.len(),
                    shards.len(),
                );
                if p3 <= end {
                    lemma_cut_offsets(data, end, p3);
                }
            }
        }
    }
}

} // verus!
