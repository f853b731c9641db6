//! The binary encoding of snapshots: little-endian integers, length-prefixed
//! UTF-8 strings, log events and Kafka offsets.
//!
//! Every value has an encoding, a sequence of bytes, and a decoding, which reads
//! a value at a position of the data and says where the next one starts.

use crate::kafka_offsets::{
    apply_pairs, apply_topics, topic_views, KafkaOffsets, TopicOffsets, TopicView,
};
use crate::log_entry::{entry_records, LogEntry, Record};
use crate::snapshot::SnapshotError;
use vstd::bytes::{
    spec_u32_from_le_bytes, spec_u32_to_le_bytes, spec_u64_from_le_bytes, spec_u64_to_le_bytes,
    u32_from_le_bytes, u32_to_le_bytes, u64_from_le_bytes, u64_to_le_bytes,
};
use vstd::prelude::*;
use vstd::slice::slice_subrange;
use vstd::utf8::{decode_utf8, encode_utf8, valid_utf8};

verus! {

/// What decoding gives: a value and the position behind it, or an error.
pub type Decoded<T> = Result<(T, int), SnapshotError>;

// Encodings.

pub open spec fn encode_string(text: Seq<char>) -> Seq<u8> {
    spec_u32_to_le_bytes(encode_utf8(text).len() as u32) + encode_utf8(text)
}

pub open spec fn encode_record(record: Record) -> Seq<u8> {
    spec_u64_to_le_bytes(record.timestamp as u64) + encode_string(record.service) + encode_string(
        record.host,
    ) + encode_string(record.message)
}

pub open spec fn encode_records(records: Seq<Record>) -> Seq<u8>
    decreases records.len(),
{
    if records.len() == 0 {
        Seq::empty()
    } else {
        encode_records(records.drop_last()) + encode_record(records.last())
    }
}

pub open spec fn encode_pairs(pairs: Seq<(u32, u64)>) -> Seq<u8>
    decreases pairs.len(),
{
    if pairs.len() == 0 {
        Seq::empty()
    } else {
        encode_pairs(pairs.drop_last()) + spec_u32_to_le_bytes(pairs.last().0)
            + spec_u64_to_le_bytes(pairs.last().1)
    }
}

pub open spec fn encode_topic(topic: TopicView) -> Seq<u8> {
    encode_string(topic.topic) + spec_u32_to_le_bytes(topic.partitions.len() as u32)
        + encode_pairs(topic.partitions)
}

pub open spec fn encode_topics(topics: Seq<TopicView>) -> Seq<u8>
    decreases topics.len(),
{
    if topics.len() == 0 {
        Seq::empty()
    } else {
        encode_topics(topics.drop_last()) + encode_topic(topics.last())
    }
}

pub open spec fn encode_offsets(topics: Seq<TopicView>) -> Seq<u8> {
    spec_u32_to_le_bytes(topics.len() as u32) + encode_topics(topics)
}

// Decodings.

/// The bytes `[pos, pos + count)`.
pub open spec fn decode_bytes(data: Seq<u8>, pos: int, count: nat) -> Decoded<Seq<u8>> {
    if pos + count <= data.len() {
        Ok((data.subrange(pos, pos + count), pos + count))
    } else {
        Err(SnapshotError::UnexpectedEof)
    }
}

pub open spec fn decode_u32(data: Seq<u8>, pos: int) -> Decoded<u32> {
    match decode_bytes(data, pos, 4) {
        Ok((bytes, next)) => Ok((spec_u32_from_le_bytes(bytes), next)),
        Err(e) => Err(e),
    }
}

pub open spec fn decode_u64(data: Seq<u8>, pos: int) -> Decoded<u64> {
    match decode_bytes(data, pos, 8) {
        Ok((bytes, next)) => Ok((spec_u64_from_le_bytes(bytes), next)),
        Err(e) => Err(e),
    }
}

pub open spec fn decode_string(data: Seq<u8>, pos: int) -> Decoded<Seq<char>> {
    match decode_u32(data, pos) {
        Err(e) => Err(e),
        Ok((len, start)) => match decode_bytes(data, start, (len as usize) as nat) {
            Err(e) => Err(e),
            Ok((bytes, next)) => if valid_utf8(bytes) {
                Ok((decode_utf8(bytes), next))
            } else {
                Err(SnapshotError::InvalidUtf8)
            },
        },
    }
}

pub open spec fn decode_record(data: Seq<u8>, pos: int) -> Decoded<Record> {
    match decode_u64(data, pos) {
        Err(e) => Err(e),
        Ok((timestamp, p1)) => match decode_string(data, p1) {
            Err(e) => Err(e),
            Ok((service, p2)) => match decode_string(data, p2) {
                Err(e) => Err(e),
                Ok((host, p3)) => match decode_string(data, p3) {
                    Err(e) => Err(e),
                    Ok((message, p4)) => Ok(
                        (Record { timestamp: timestamp as i64, service, host, message }, p4),
                    ),
                },
            },
        },
    }
}

pub open spec fn decode_records(data: Seq<u8>, pos: int, count: nat) -> Decoded<Seq<Record>>
    decreases count,
{
    if count == 0 {
        Ok((Seq::empty(), pos))
    } else {
        match decode_records(data, pos, (count - 1) as nat) {
            Err(e) => Err(e),
            Ok((records, p)) => match decode_record(data, p) {
                Err(e) => Err(e),
                Ok((record, next)) => Ok((records.push(record), next)),
            },
        }
    }
}

/// Reads `count` pairs of a partition and its offset.
pub open spec fn decode_pairs(data: Seq<u8>, pos: int, count: nat) -> Decoded<Seq<(u32, u64)>>
    decreases count,
{
    if count == 0 {
        Ok((Seq::empty(), pos))
    } else {
        match decode_pairs(data, pos, (count - 1) as nat) {
            Err(e) => Err(e),
            Ok((pairs, p)) => match decode_u32(data, p) {
                Err(e) => Err(e),
                Ok((partition, q)) => match decode_u64(data, q) {
                    Err(e) => Err(e),
                    Ok((offset, next)) => Ok((pairs.push((partition, offset)), next)),
                },
            },
        }
    }
}

pub open spec fn decode_topic(data: Seq<u8>, pos: int) -> Decoded<TopicView> {
    match decode_string(data, pos) {
        Err(e) => Err(e),
        Ok((topic, p)) => match decode_u32(data, p) {
            Err(e) => Err(e),
            Ok((count, q)) => match decode_pairs(data, q, (count as usize) as nat) {
                Err(e) => Err(e),
                Ok((partitions, next)) => Ok((TopicView { topic, partitions }, next)),
            },
        },
    }
}

pub open spec fn decode_topics(data: Seq<u8>, pos: int, count: nat) -> Decoded<Seq<TopicView>>
    decreases count,
{
    if count == 0 {
        Ok((Seq::empty(), pos))
    } else {
        match decode_topics(data, pos, (count - 1) as nat) {
            Err(e) => Err(e),
            Ok((topics, p)) => match decode_topic(data, p) {
                Err(e) => Err(e),
                Ok((topic, next)) => Ok((topics.push(topic), next)),
            },
        }
    }
}

/// The groups of offsets as they stand in the data. Setting them one after the
/// other gives the offsets.
pub open spec fn decode_offsets(data: Seq<u8>, pos: int) -> Decoded<Seq<TopicView>> {
    match decode_u32(data, pos) {
        Err(e) => Err(e),
        Ok((count, p)) => decode_topics(data, p, (count as usize) as nat),
    }
}

// Writing.

/// Appends bytes.
fn write_bytes(buf: &mut Vec<u8>, bytes: &[u8])
    ensures
        final(buf)@ == old(buf)@ + bytes@,
{
    buf.extend_from_slice(bytes);
    assert(buf@ =~= old(buf)@ + bytes@);
}

pub fn write_u64(buf: &mut Vec<u8>, val: u64)
    ensures
        final(buf)@ == old(buf)@ + spec_u64_to_le_bytes(val),
{
    write_bytes(buf, u64_to_le_bytes(val).as_slice());
}

pub fn write_u32(buf: &mut Vec<u8>, val: u32)
    ensures
        final(buf)@ == old(buf)@ + spec_u32_to_le_bytes(val),
{
    write_bytes(buf, u32_to_le_bytes(val).as_slice());
}

/// Appends a string with its length in bytes before it.
pub fn write_string(buf: &mut Vec<u8>, s: &str)
    ensures
        final(buf)@ == old(buf)@ + encode_string(s@),
{
    let bytes: &[u8] = s.as_bytes();
    write_u32(buf, bytes.len() as u32);
    write_bytes(buf, bytes);
    assert(buf@ =~= old(buf)@ + encode_string(s@));
}

pub fn write_entry(buf: &mut Vec<u8>, entry: &LogEntry)
    ensures
        final(buf)@ == old(buf)@ + encode_record(entry@),
{
    write_u64(buf, entry.timestamp as u64);
    write_string(buf, entry.service_name.as_str());
    write_string(buf, entry.host_id.as_str());
    write_string(buf, entry.message.as_str());
    assert(buf@ =~= old(buf)@ + encode_record(entry@));
}

/// Appends log events in their order.
pub fn write_entries(buf: &mut Vec<u8>, entries: &Vec<LogEntry>)
    ensures
        final(buf)@ == old(buf)@ + encode_records(entry_records(entries@)),
{
    let ghost all = entry_records(entries@);
    let mut i: usize = 0;
    assert(buf@ =~= old(buf)@ + encode_records(all.take(0)));
    while i < entries.len()
        invariant
            all == entry_records(entries@),
            i <= entries@.len(),
            buf@ == old(buf)@ + encode_records(all.take(i as int)),
        decreases entries@.len() - i,
    {
        proof {
            assert(all.take(i + 1).drop_last() =~= all.take(i as int));
            assert(all.take(i + 1).last() == entries@[i as int]@);
        }
        write_entry(buf, &entries[i]);
        assert(buf@ =~= old(buf)@ + encode_records(all.take(i + 1)));
        i += 1;
    }
    assert(all.take(i as int) =~= all);
}

fn write_topic(buf: &mut Vec<u8>, group: &TopicOffsets)
    ensures
        final(buf)@ == old(buf)@ + encode_topic(group@),
{
    let pairs: &[(u32, u64)] = group.partitions();
    write_string(buf, group.topic());
    write_u32(buf, pairs.len() as u32);
    let ghost head = buf@;
    let mut i: usize = 0;
    assert(buf@ =~= head + encode_pairs(pairs@.take(0)));
    while i < pairs.len()
        invariant
            i <= pairs@.len(),
            buf@ == head + encode_pairs(pairs@.take(i as int)),
        decreases pairs@.len() - i,
    {
        assert(pairs@.take(i + 1).drop_last() =~= pairs@.take(i as int));
        let (partition, offset): (u32, u64) = pairs[i];
        write_u32(buf, partition);
        write_u64(buf, offset);
        assert(buf@ =~= head + encode_pairs(pairs@.take(i + 1)));
        i += 1;
    }
    assert(pairs@.take(i as int) =~= pairs@);
    assert(buf@ =~= old(buf)@ + encode_topic(group@));
}

pub fn write_kafka_offsets(buf: &mut Vec<u8>, kafka_offsets: &KafkaOffsets)
    ensures
        final(buf)@ == old(buf)@ + encode_offsets(kafka_offsets.listing()),
{
    let topics: &[TopicOffsets] = kafka_offsets.inner();
    let ghost all = topic_views(topics@);
    write_u32(buf, topics.len() as u32);
    let ghost head = buf@;
    let mut i: usize = 0;
    assert(buf@ =~= head + encode_topics(all.take(0)));
    while i < topics.len()
        invariant
            all == topic_views(topics@),
            i <= topics@.len(),
            buf@ == head + encode_topics(all.take(i as int)),
        decreases topics@.len() - i,
    {
        proof {
            assert(all.take(i + 1).drop_last() =~= all.take(i as int));
            assert(all.take(i + 1).last() == topics@[i as int]@);
        }
        write_topic(buf, &topics[i]);
        assert(buf@ =~= head + encode_topics(all.take(i + 1)));
        i += 1;
    }
    assert(all.take(i as int) =~= all);
    assert(buf@ =~= old(buf)@ + encode_offsets(all));
}

// Reading. Each function reads at `*pos` and moves `*pos` behind what it read;
// after an error the position is of no use.

/// Reads the next `count` bytes.
pub fn read_bytes<'a>(data: &'a [u8], pos: &mut usize, count: usize) -> (bytes: Result<
    &'a [u8],
    SnapshotError,
>)
    requires
        *old(pos) <= data@.len(),
    ensures
        match decode_bytes(data@, *old(pos) as int, count as nat) {
            Ok((decoded, next)) => {
                &&& bytes matches Ok(b)
                &&& b@ == decoded
                &&& *final(pos) == next
            },
            Err(e) => bytes == Err::<&'a [u8], SnapshotError>(e),
        },
        bytes is Ok ==> *final(pos) <= data@.len(),
{
    if count > data.len() - *pos {
        return Err(SnapshotError::UnexpectedEof);
    }
    let start: usize = *pos;
    *pos = start + count;
    Ok(slice_subrange(data, start, start + count))
}

pub fn read_u64(data: &[u8], pos: &mut usize) -> (value: Result<u64, SnapshotError>)
    requires
        *old(pos) <= data@.len(),
    ensures
        match decode_u64(data@, *old(pos) as int) {
            Ok((decoded, next)) => value == Ok::<u64, SnapshotError>(decoded) && *final(pos)
                == next,
            Err(e) => value == Err::<u64, SnapshotError>(e),
        },
        value is Ok ==> *final(pos) <= data@.len(),
{
    match read_bytes(data, pos, 8) {
        Ok(bytes) => Ok(u64_from_le_bytes(bytes)),
        Err(e) => Err(e),
    }
}

pub fn read_u32(data: &[u8], pos: &mut usize) -> (value: Result<u32, SnapshotError>)
    requires
        *old(pos) <= data@.len(),
    ensures
        match decode_u32(data@, *old(pos) as int) {
            Ok((decoded, next)) => value == Ok::<u32, SnapshotError>(decoded) && *final(pos)
                == next,
            Err(e) => value == Err::<u32, SnapshotError>(e),
        },
        value is Ok ==> *final(pos) <= data@.len(),
{
    match read_bytes(data, pos, 4) {
        Ok(bytes) => Ok(u32_from_le_bytes(bytes)),
        Err(e) => Err(e),
    }
}

/// `std::str::from_utf8`: it succeeds exactly on valid UTF-8, and then gives the
/// characters that the bytes encode.
#[verifier::external_body]
pub(crate) fn str_of_utf8<'a>(bytes: &'a [u8]) -> (text: Option<&'a str>)
    ensures
        match text {
            Some(t) => valid_utf8(bytes@) && t@ == decode_utf8(bytes@),
            None => !valid_utf8(bytes@),
        },
{
    std::str::from_utf8(bytes).ok()
}

pub fn read_string(data: &[u8], pos: &mut usize) -> (text: Result<String, SnapshotError>)
    requires
        *old(pos) <= data@.len(),
    ensures
        match decode_string(data@, *old(pos) as int) {
            Ok((decoded, next)) => {
                &&& text matches Ok(t)
                &&& t@ == decoded
                &&& *final(pos) == next
            },
            Err(e) => text == Err::<String, SnapshotError>(e),
        },
        text is Ok ==> *final(pos) <= data@.len(),
{
    let len: u32 = match read_u32(data, pos) {
        Ok(len) => len,
        Err(e) => return Err(e),
    };
    let bytes: &[u8] = match read_bytes(data, pos, len as usize) {
        Ok(bytes) => bytes,
        Err(e) => return Err(e),
    };
    match str_of_utf8(bytes) {
        Some(text) => Ok(text.to_owned()),
        None => Err(SnapshotError::InvalidUtf8),
    }
}

pub fn read_entry(data: &[u8], pos: &mut usize) -> (entry: Result<LogEntry, SnapshotError>)
    requires
        *old(pos) <= data@.len(),
    ensures
        match decode_record(data@, *old(pos) as int) {
            Ok((decoded, next)) => {
                &&& entry matches Ok(found)
                &&& found@ == decoded
                &&& *final(pos) == next
            },
            Err(e) => entry == Err::<LogEntry, SnapshotError>(e),
        },
        entry is Ok ==> *final(pos) <= data@.len(),
{
    let timestamp: u64 = match read_u64(data, pos) {
        Ok(timestamp) => timestamp,
        Err(e) => return Err(e),
    };
    let service_name: String = match read_string(data, pos) {
        Ok(text) => text,
        Err(e) => return Err(e),
    };
    let host_id: String = match read_string(data, pos) {
        Ok(text) => text,
        Err(e) => return Err(e),
    };
    let message: String = match read_string(data, pos) {
        Ok(text) => text,
        Err(e) => return Err(e),
    };
    Ok(LogEntry { timestamp: timestamp as i64, service_name, host_id, message })
}

/// A list that starts with an error, or breaks off with one, has that error
/// however long it is meant to be.
proof fn lemma_records_error(data: Seq<u8>, pos: int, few: nat, many: nat)
    requires
        few <= many,
        decode_records(data, pos, few) is Err,
    ensures
        decode_records(data, pos, many) == decode_records(data, pos, few),
    decreases many,
{
    if few < many {
        lemma_records_error(data, pos, few, (many - 1) as nat);
    }
}

proof fn lemma_pairs_error(data: Seq<u8>, pos: int, few: nat, many: nat)
    requires
        few <= many,
        decode_pairs(data, pos, few) is Err,
    ensures
        decode_pairs(data, pos, many) == decode_pairs(data, pos, few),
    decreases many,
{
    if few < many {
        lemma_pairs_error(data, pos, few, (many - 1) as nat);
    }
}

proof fn lemma_topics_error(data: Seq<u8>, pos: int, few: nat, many: nat)
    requires
        few <= many,
        decode_topics(data, pos, few) is Err,
    ensures
        decode_topics(data, pos, many) == decode_topics(data, pos, few),
    decreases many,
{
    if few < many {
        lemma_topics_error(data, pos, few, (many - 1) as nat);
    }
}

/// Reads `count` log events.
pub fn read_entries(data: &[u8], pos: &mut usize, count: usize) -> (entries: Result<
    Vec<LogEntry>,
    SnapshotError,
>)
    requires
        *old(pos) <= data@.len(),
    ensures
        match decode_records(data@, *old(pos) as int, count as nat) {
            Ok((decoded, next)) => {
                &&& entries matches Ok(found)
                &&& entry_records(found@) == decoded
                &&& *final(pos) == next
            },
            Err(e) => entries == Err::<Vec<LogEntry>, SnapshotError>(e),
        },
        entries is Ok ==> *final(pos) <= data@.len(),
{
    let ghost start = *pos as int;
    let mut entries: Vec<LogEntry> = Vec::new();
    let mut i: usize = 0;
    assert(entry_records(entries@) =~= Seq::empty());
    while i < count
        invariant
            i <= count,
            start == *old(pos),
            *pos <= data@.len(),
            decode_records(data@, start, i as nat) == Ok::<(Seq<Record>, int), SnapshotError>(
                (entry_records(entries@), *pos as int),
            ),
        decreases count - i,
    {
        match read_entry(data, pos) {
            Ok(entry) => {
                let ghost before = entries@;
                entries.push(entry);
                assert(entry_records(entries@) =~= entry_records(before).push(entry@));
            },
            Err(e) => {
                proof {
                    lemma_records_error(data@, start, (i + 1) as nat, count as nat);
                }
                return Err(e);
            },
        }
        i += 1;
    }
    Ok(entries)
}

/// Reads the offsets of one topic into `offsets`.
fn read_topic(data: &[u8], pos: &mut usize, offsets: &mut KafkaOffsets) -> (result: Result<
    (),
    SnapshotError,
>)
    requires
        *old(pos) <= data@.len(),
        old(offsets).wf(),
    ensures
        match decode_topic(data@, *old(pos) as int) {
            Ok((group, next)) => {
                &&& result is Ok
                &&& final(offsets)@ == apply_pairs(
                    old(offsets)@,
                    group.topic,
                    group.partitions,
                )
                &&& *final(pos) == next
            },
            Err(e) => result == Err::<(), SnapshotError>(e),
        },
        final(offsets).wf(),
        result is Ok ==> *final(pos) <= data@.len(),
{
    let topic: String = match read_string(data, pos) {
        Ok(topic) => topic,
        Err(e) => return Err(e),
    };
    let count: usize = match read_u32(data, pos) {
        Ok(count) => count as usize,
        Err(e) => return Err(e),
    };
    let ghost start = *pos as int;
    let ghost mut pairs: Seq<(u32, u64)> = Seq::empty();
    let mut i: usize = 0;
    while i < count
        invariant
            i <= count,
            *pos <= data@.len(),
            offsets.wf(),
            decode_pairs(data@, start, i as nat) == Ok::<(Seq<(u32, u64)>, int), SnapshotError>(
                (pairs, *pos as int),
            ),
            offsets@ == apply_pairs(old(offsets)@, topic@, pairs),
            match decode_pairs(data@, start, count as nat) {
                Ok((partitions, next)) => decode_topic(data@, *old(pos) as int) == Ok::<
                    (TopicView, int),
                    SnapshotError,
                >((TopicView { topic: topic@, partitions }, next)),
                Err(e) => decode_topic(data@, *old(pos) as int) == Err::<
                    (TopicView, int),
                    SnapshotError,
                >(e),
            },
        decreases count - i,
    {
        let partition: u32 = match read_u32(data, pos) {
            Ok(partition) => partition,
            Err(e) => {
                proof {
                    lemma_pairs_error(data@, start, (i + 1) as nat, count as nat);
                }
                return Err(e);
            },
        };
        let offset: u64 = match read_u64(data, pos) {
            Ok(offset) => offset,
            Err(e) => {
                proof {
                    lemma_pairs_error(data@, start, (i + 1) as nat, count as nat);
                }
                return Err(e);
            },
        };
        offsets.set(topic.as_str(), partition, offset);
        proof {
            let more = pairs.push((partition, offset));
            assert(more.drop_last() =~= pairs);
            pairs = more;
        }
        i += 1;
    }
    Ok(())
}

/// Reads Kafka offsets. A topic without partitions leaves no trace.
pub fn read_kafka_offsets(data: &[u8], pos: &mut usize) -> (offsets: Result<
    KafkaOffsets,
    SnapshotError,
>)
    requires
        *old(pos) <= data@.len(),
    ensures
        match decode_offsets(data@, *old(pos) as int) {
            Ok((topics, next)) => {
                &&& offsets matches Ok(found)
                &&& found@ == apply_topics(Map::empty(), topics)
                &&& found.wf()
                &&& *final(pos) == next
            },
            Err(e) => offsets == Err::<KafkaOffsets, SnapshotError>(e),
        },
        offsets is Ok ==> *final(pos) <= data@.len(),
{
    let count: usize = match read_u32(data, pos) {
        Ok(count) => count as usize,
        Err(e) => return Err(e),
    };
    let ghost start = *pos as int;
    let ghost mut topics: Seq<TopicView> = Seq::empty();
    let mut offsets: KafkaOffsets = KafkaOffsets::new();
    let mut i: usize = 0;
    while i < count
        invariant
            i <= count,
            *pos <= data@.len(),
            offsets.wf(),
            decode_topics(data@, start, i as nat) == Ok::<(Seq<TopicView>, int), SnapshotError>(
                (topics, *pos as int),
            ),
            offsets@ == apply_topics(Map::empty(), topics),
            decode_offsets(data@, *old(pos) as int) == decode_topics(data@, start, count as nat),
        decreases count - i,
    {
        match read_topic(data, pos, &mut offsets) {
            Ok(()) => {},
            Err(e) => {
                proof {
                    lemma_topics_error(data@, start, (i + 1) as nat, count as nat);
                }
                return Err(e);
            },
        }
        proof {
            let all = decode_topics(data@, start, (i + 1) as nat)->Ok_0.0;
            assert(all.drop_last() =~= topics);
            topics = all;
        }
        i += 1;
    }
    Ok(offsets)
}

} // verus!
