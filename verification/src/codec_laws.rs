//! Laws of the encoding: what was written is what is read back, and reading
//! never runs past the data.

use crate::codec::{
    decode_offsets, decode_pairs, decode_record, decode_records, decode_string, decode_topic,
    decode_topics, decode_u32, decode_u64, encode_offsets, encode_pairs, encode_record,
    encode_records, encode_string, encode_topic, encode_topics,
};
use crate::kafka_offsets::TopicView;
use crate::log_entry::Record;
use crate::snapshot::SnapshotError;
use vstd::bytes::{
    lemma_auto_spec_u32_to_from_le_bytes, lemma_auto_spec_u64_to_from_le_bytes,
    spec_u32_to_le_bytes, spec_u64_to_le_bytes,
};
use vstd::prelude::*;
use vstd::utf8::{encode_utf8, encode_utf8_decode_utf8, encode_utf8_valid_utf8};

verus! {

/// The given bytes stand at a position of the data.
pub open spec fn stands_at(data: Seq<u8>, pos: int, bytes: Seq<u8>) -> bool {
    &&& 0 <= pos
    &&& pos + bytes.len() <= data.len()
    &&& data.subrange(pos, pos + bytes.len()) == bytes
}

/// What stands at a position stands there part after part.
pub proof fn lemma_stands_split(data: Seq<u8>, pos: int, a: Seq<u8>, b: Seq<u8>)
    requires
        stands_at(data, pos, a + b),
    ensures
        stands_at(data, pos, a),
        stands_at(data, pos + a.len(), b),
{
    let whole = data.subrange(pos, pos + (a + b).len());
    assert forall|i: int| 0 <= i < a.len() implies data[pos + i] == a[i] by {
        assert(whole[i] == (a + b)[i]);
    }
    assert forall|i: int| 0 <= i < b.len() implies data[pos + a.len() + i] == b[i] by {
        assert(whole[a.len() + i] == (a + b)[a.len() + i]);
    }
    assert(data.subrange(pos, pos + a.len()) =~= a);
    assert(data.subrange(pos + a.len(), pos + a.len() + b.len()) =~= b);
}

/// The length of a string's encoding fits its length field.
pub open spec fn encodable_string(text: Seq<char>) -> bool {
    encode_utf8(text).len() <= u32::MAX
}

pub open spec fn encodable_record(record: Record) -> bool {
    &&& encodable_string(record.service)
    &&& encodable_string(record.host)
    &&& encodable_string(record.message)
}

pub open spec fn encodable_records(records: Seq<Record>) -> bool {
    forall|i: int| 0 <= i < records.len() ==> encodable_record(#[trigger] records[i])
}

pub open spec fn encodable_topic(topic: TopicView) -> bool {
    encodable_string(topic.topic) && topic.partitions.len() <= u32::MAX
}

pub open spec fn encodable_topics(topics: Seq<TopicView>) -> bool {
    &&& topics.len() <= u32::MAX
    &&& forall|i: int| 0 <= i < topics.len() ==> encodable_topic(#[trigger] topics[i])
}

/// A written `u32` is read back.
pub proof fn u32_round_trip(data: Seq<u8>, pos: int, value: u32)
    requires
        stands_at(data, pos, spec_u32_to_le_bytes(value)),
    ensures
        decode_u32(data, pos) == Ok::<(u32, int), SnapshotError>((value, pos + 4)),
        spec_u32_to_le_bytes(value).len() == 4,
{
    lemma_auto_spec_u32_to_from_le_bytes();
}

/// A written `u64` is read back.
pub proof fn u64_round_trip(data: Seq<u8>, pos: int, value: u64)
    requires
        stands_at(data, pos, spec_u64_to_le_bytes(value)),
    ensures
        decode_u64(data, pos) == Ok::<(u64, int), SnapshotError>((value, pos + 8)),
        spec_u64_to_le_bytes(value).len() == 8,
{
    lemma_auto_spec_u64_to_from_le_bytes();
}

/// A written string is read back.
pub proof fn string_round_trip(data: Seq<u8>, pos: int, text: Seq<char>)
    requires
        stands_at(data, pos, encode_string(text)),
        encodable_string(text),
    ensures
        decode_string(data, pos) == Ok::<(Seq<char>, int), SnapshotError>(
            (text, pos + encode_string(text).len()),
        ),
{
    let bytes = encode_utf8(text);
    let len = bytes.len() as u32;
    lemma_stands_split(data, pos, spec_u32_to_le_bytes(len), bytes);
    u32_round_trip(data, pos, len);
    encode_utf8_valid_utf8(text);
    encode_utf8_decode_utf8(text);
}

/// A written log event is read back.
pub proof fn record_round_trip(data: Seq<u8>, pos: int, record: Record)
    requires
        stands_at(data, pos, encode_record(record)),
        encodable_record(record),
    ensures
        decode_record(data, pos) == Ok::<(Record, int), SnapshotError>(
            (record, pos + encode_record(record).len()),
        ),
{
    let timestamp = spec_u64_to_le_bytes(record.timestamp as u64);
    let service = encode_string(record.service);
    let host = encode_string(record.host);
    let message = encode_string(record.message);
    lemma_stands_split(data, pos, timestamp + service + host, message);
    lemma_stands_split(data, pos, timestamp + service, host);
    lemma_stands_split(data, pos, timestamp, service);
    u64_round_trip(data, pos, record.timestamp as u64);
    string_round_trip(data, pos + 8, record.service);
    string_round_trip(data, pos + 8 + service.len(), record.host);
    string_round_trip(data, pos + 8 + service.len() + host.len(), record.message);
    let signed: i64 = record.timestamp;
    assert((signed as u64) as i64 == signed) by (bit_vector);
}

/// Written log events are read back in their order.
pub proof fn records_round_trip(data: Seq<u8>, pos: int, records: Seq<Record>)
    requires
        stands_at(data, pos, encode_records(records)),
        encodable_records(records),
    ensures
        decode_records(data, pos, records.len()) == Ok::<(Seq<Record>, int), SnapshotError>(
            (records, pos + encode_records(records).len()),
        ),
    decreases records.len(),
{
    if records.len() == 0 {
        assert(records =~= Seq::empty());
    } else {
        let rest = records.drop_last();
        lemma_stands_split(data, pos, encode_records(rest), encode_record(records.last()));
        assert forall|i: int| 0 <= i < rest.len() implies encodable_record(#[trigger] rest[i]) by {
            assert(encodable_record(records[i]));
        }
        records_round_trip(data, pos, rest);
        assert(encodable_record(records[records.len() - 1]));
        record_round_trip(data, pos + encode_records(rest).len(), records.last());
        assert(rest.push(records.last()) =~= records);
    }
}

proof fn pairs_round_trip(data: Seq<u8>, pos: int, pairs: Seq<(u32, u64)>)
    requires
        stands_at(data, pos, encode_pairs(pairs)),
    ensures
        decode_pairs(data, pos, pairs.len()) == Ok::<(Seq<(u32, u64)>, int), SnapshotError>(
            (pairs, pos + encode_pairs(pairs).len()),
        ),
    decreases pairs.len(),
{
    if pairs.len() == 0 {
        assert(pairs =~= Seq::empty());
    } else {
        let rest = pairs.drop_last();
        let partition = spec_u32_to_le_bytes(pairs.last().0);
        let offset = spec_u64_to_le_bytes(pairs.last().1);
        lemma_stands_split(data, pos, encode_pairs(rest) + partition, offset);
        lemma_stands_split(data, pos, encode_pairs(rest), partition);
        pairs_round_trip(data, pos, rest);
        let next = pos + encode_pairs(rest).len();
        u32_round_trip(data, next, pairs.last().0);
        u64_round_trip(data, next + 4, pairs.last().1);
        assert(rest.push(pairs.last()) =~= pairs);
    }
}

proof fn topic_round_trip(data: Seq<u8>, pos: int, topic: TopicView)
    requires
        stands_at(data, pos, encode_topic(topic)),
        encodable_topic(topic),
    ensures
        decode_topic(data, pos) == Ok::<(TopicView, int), SnapshotError>(
            (topic, pos + encode_topic(topic).len()),
        ),
{
    let name = encode_string(topic.topic);
    let count = topic.partitions.len() as u32;
    lemma_stands_split(
        data,
        pos,
        name + spec_u32_to_le_bytes(count),
        encode_pairs(topic.partitions),
    );
    lemma_stands_split(data, pos, name, spec_u32_to_le_bytes(count));
    string_round_trip(data, pos, topic.topic);
    u32_round_trip(data, pos + name.len(), count);
    pairs_round_trip(data, pos + name.len() + 4, topic.partitions);
}

proof fn topics_round_trip(data: Seq<u8>, pos: int, topics: Seq<TopicView>)
    requires
        stands_at(data, pos, encode_topics(topics)),
        forall|i: int| 0 <= i < topics.len() ==> encodable_topic(#[trigger] topics[i]),
    ensures
        decode_topics(data, pos, topics.len()) == Ok::<(Seq<TopicView>, int), SnapshotError>(
            (topics, pos + encode_topics(topics).len()),
        ),
    decreases topics.len(),
{
    if topics.len() == 0 {
        assert(topics =~= Seq::empty());
    } else {
        let rest = topics.drop_last();
        lemma_stands_split(data, pos, encode_topics(rest), encode_topic(topics.last()));
        assert forall|i: int| 0 <= i < rest.len() implies encodable_topic(#[trigger] rest[i]) by {
            assert(encodable_topic(topics[i]));
        }
        topics_round_trip(data, pos, rest);
        assert(encodable_topic(topics[topics.len() - 1]));
        topic_round_trip(data, pos + encode_topics(rest).len(), topics.last());
        assert(rest.push(topics.last()) =~= topics);
    }
}

/// Written Kafka offsets are read back.
pub proof fn offsets_round_trip(data: Seq<u8>, pos: int, topics: Seq<TopicView>)
    requires
        stands_at(data, pos, encode_offsets(topics)),
        encodable_topics(topics),
    ensures
        decode_offsets(data, pos) == Ok::<(Seq<TopicView>, int), SnapshotError>(
            (topics, pos + encode_offsets(topics).len()),
        ),
{
    let count = topics.len() as u32;
    lemma_stands_split(data, pos, spec_u32_to_le_bytes(count), encode_topics(topics));
    u32_round_trip(data, pos, count);
    topics_round_trip(data, pos + 4, topics);
}

proof fn lemma_record_advances(data: Seq<u8>, pos: int)
    requires
        0 <= pos <= data.len(),
    ensures
        decode_record(data, pos) matches Ok((_, next)) ==> pos < next <= data.len(),
{
}

/// As many log events as are read take at least as many bytes, and reading ends
/// within the data.
pub proof fn records_take_room(data: Seq<u8>, pos: int, count: nat)
    requires
        0 <= pos <= data.len(),
    ensures
        decode_records(data, pos, count) matches Ok((records, next)) ==> {
            &&& records.len() == count
            &&& pos + count <= next <= data.len()
        },
    decreases count,
{
    if count > 0 {
        let fewer = (count - 1) as nat;
        records_take_room(data, pos, fewer);
        if let Ok((_, next)) = decode_records(data, pos, fewer) {
            lemma_record_advances(data, next);
        }
    }
}

} // verus!
