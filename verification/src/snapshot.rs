//! Snapshots: the shards' live entries and the Kafka offsets, as one run of bytes.
//!
//! The current format carries each shard's capacity share. The legacy format
//! carries the total capacity only, and reading it divides the total among the
//! shards again.

use crate::codec::{
    decode_bytes, decode_offsets, decode_records, decode_u32, decode_u64, encode_offsets,
    encode_records, read_bytes, read_entries, read_kafka_offsets, read_u32, read_u64,
    write_entries, write_kafka_offsets, write_u32, write_u64, Decoded,
};
use crate::kafka_offsets::{apply_topics, TopicView};
use crate::log_entry::{entry_records, LogEntry, Record};
use crate::totals::{lemma_sum_prefix, lemma_sum_push, sum};
use vstd::bytes::{spec_u32_to_le_bytes, spec_u64_to_le_bytes};
use vstd::prelude::*;

pub use crate::kafka_offsets::KafkaOffsets;

verus! {

/// Why a snapshot cannot be restored.
#[derive(Clone, Copy, Debug, PartialEq, Eq, Structural)]
pub enum SnapshotError {
    /// The data ends before the snapshot does.
    UnexpectedEof,
    /// The data does not start with a known snapshot magic.
    InvalidMagic,
    /// A string is not valid UTF-8.
    InvalidUtf8,
    /// The shard capacities do not add up to a `usize`.
    CapacityOverflow,
    /// The snapshot holds no shard.
    NoShards,
    /// A shard's next offset is smaller than its number of live entries.
    OffsetBelowEntryCount,
    /// Two shards hold entries of one host.
    HostInTwoShards,
}

/// What a snapshot keeps of one shard.
#[verifier::ext_equal]
pub struct ShardImage {
    pub id: u32,
    pub capacity: usize,
    pub next_offset: u64,
    pub records: Seq<Record>,
}

/// One shard as it is written to a snapshot.
#[derive(Debug)]
pub struct SnapshotShard {
    pub shard_id: u32,
    pub capacity: usize,
    pub next_offset: u64,
    pub entries: Vec<LogEntry>,
}

/// One shard as it is read back from a snapshot.
#[derive(Debug)]
pub struct RestoredShard {
    pub shard_id: u32,
    pub capacity: usize,
    pub next_offset: u64,
    pub entries: Vec<LogEntry>,
}

impl View for SnapshotShard {
    type V = ShardImage;

    open spec fn view(&self) -> ShardImage {
        ShardImage {
            id: self.shard_id,
            capacity: self.capacity,
            next_offset: self.next_offset,
            records: entry_records(self.entries@),
        }
    }
}

impl View for RestoredShard {
    type V = ShardImage;

    open spec fn view(&self) -> ShardImage {
        ShardImage {
            id: self.shard_id,
            capacity: self.capacity,
            next_offset: self.next_offset,
            records: entry_records(self.entries@),
        }
    }
}

/// What each of a sequence of shards to write keeps.
pub open spec fn snapshot_images(shards: Seq<SnapshotShard>) -> Seq<ShardImage> {
    shards.map_values(|s: SnapshotShard| s@)
}

/// What each of a sequence of shards that were read keeps.
pub open spec fn restored_images(shards: Seq<RestoredShard>) -> Seq<ShardImage> {
    shards.map_values(|s: RestoredShard| s@)
}

/// The capacity share of each shard.
pub open spec fn image_capacities(shards: Seq<ShardImage>) -> Seq<nat> {
    shards.map_values(|s: ShardImage| s.capacity as nat)
}

/// What a snapshot holds.
#[verifier::ext_equal]
pub struct SnapshotContents {
    pub total_capacity: nat,
    pub shards: Seq<ShardImage>,
    /// The Kafka offsets as they are listed.
    pub topics: Seq<TopicView>,
}

/// `CHIRON05`, the first bytes of a snapshot.
pub open spec fn magic() -> Seq<u8> {
    seq![0x43u8, 0x48u8, 0x49u8, 0x52u8, 0x4fu8, 0x4eu8, 0x30u8, 0x35u8]
}

/// `CHIRON04`, the first bytes of a legacy snapshot.
pub open spec fn legacy_magic() -> Seq<u8> {
    seq![0x43u8, 0x48u8, 0x49u8, 0x52u8, 0x4fu8, 0x4eu8, 0x30u8, 0x34u8]
}

pub open spec fn encode_shard(shard: ShardImage) -> Seq<u8> {
    spec_u32_to_le_bytes(shard.id) + spec_u64_to_le_bytes(shard.capacity as u64)
        + spec_u64_to_le_bytes(shard.next_offset) + spec_u64_to_le_bytes(
        shard.records.len() as u64,
    ) + encode_records(shard.records)
}

pub open spec fn encode_shards(shards: Seq<ShardImage>) -> Seq<u8>
    decreases shards.len(),
{
    if shards.len() == 0 {
        Seq::empty()
    } else {
        encode_shards(shards.drop_last()) + encode_shard(shards.last())
    }
}

/// The bytes of a snapshot.
pub open spec fn encode_snapshot(shards: Seq<ShardImage>, topics: Seq<TopicView>) -> Seq<u8> {
    magic() + spec_u32_to_le_bytes(shards.len() as u32) + encode_shards(shards) + encode_offsets(
        topics,
    )
}

pub open spec fn encode_legacy_shard(shard: ShardImage) -> Seq<u8> {
    spec_u32_to_le_bytes(shard.id) + spec_u64_to_le_bytes(shard.next_offset)
        + spec_u64_to_le_bytes(shard.records.len() as u64) + encode_records(shard.records)
}

pub open spec fn encode_legacy_shards(shards: Seq<ShardImage>) -> Seq<u8>
    decreases shards.len(),
{
    if shards.len() == 0 {
        Seq::empty()
    } else {
        encode_legacy_shards(shards.drop_last()) + encode_legacy_shard(shards.last())
    }
}

/// The bytes of a legacy snapshot.
pub open spec fn encode_legacy_snapshot(
    total_capacity: usize,
    shards: Seq<ShardImage>,
    topics: Seq<TopicView>,
) -> Seq<u8> {
    legacy_magic() + spec_u64_to_le_bytes(total_capacity as u64) + spec_u32_to_le_bytes(
        shards.len() as u32,
    ) + encode_legacy_shards(shards) + encode_offsets(topics)
}

pub open spec fn decode_shard(data: Seq<u8>, pos: int) -> Decoded<ShardImage> {
    match decode_u32(data, pos) {
        Err(e) => Err(e),
        Ok((id, p1)) => match decode_u64(data, p1) {
            Err(e) => Err(e),
            Ok((capacity, p2)) => match decode_u64(data, p2) {
                Err(e) => Err(e),
                Ok((next_offset, p3)) => match decode_u64(data, p3) {
                    Err(e) => Err(e),
                    Ok((count, p4)) => match decode_records(data, p4, (count as usize) as nat) {
                        Err(e) => Err(e),
                        Ok((records, p5)) => Ok(
                            (
                                ShardImage {
                                    id,
                                    capacity: capacity as usize,
                                    next_offset,
                                    records,
                                },
                                p5,
                            ),
                        ),
                    },
                },
            },
        },
    }
}

pub open spec fn decode_shards(data: Seq<u8>, pos: int, count: nat) -> Decoded<Seq<ShardImage>>
    decreases count,
{
    if count == 0 {
        Ok((Seq::empty(), pos))
    } else {
        match decode_shards(data, pos, (count - 1) as nat) {
            Err(e) => Err(e),
            Ok((shards, p)) => match decode_shard(data, p) {
                Err(e) => Err(e),
                Ok((shard, next)) => Ok((shards.push(shard), next)),
            },
        }
    }
}

/// The share of the shard at `index` when a total is divided among `count` shards
/// as equally as it can be, the first shards getting one more where needed.
pub open spec fn legacy_share(total: usize, count: nat, index: int) -> usize {
    (total as nat / count + if index < total as nat % count {
        1nat
    } else {
        0
    }) as usize
}

/// Reads a legacy shard, whose share is not in the data.
pub open spec fn decode_legacy_shard(data: Seq<u8>, pos: int, capacity: usize) -> Decoded<
    ShardImage,
> {
    match decode_u32(data, pos) {
        Err(e) => Err(e),
        Ok((id, p1)) => match decode_u64(data, p1) {
            Err(e) => Err(e),
            Ok((next_offset, p2)) => match decode_u64(data, p2) {
                Err(e) => Err(e),
                Ok((count, p3)) => match decode_records(data, p3, (count as usize) as nat) {
                    Err(e) => Err(e),
                    Ok((records, p4)) => Ok(
                        (ShardImage { id, capacity, next_offset, records }, p4),
                    ),
                },
            },
        },
    }
}

/// Reads the first `done` of `count` legacy shards.
pub open spec fn decode_legacy_shards(
    data: Seq<u8>,
    pos: int,
    total: usize,
    count: nat,
    done: nat,
) -> Decoded<Seq<ShardImage>>
    decreases done,
{
    if done == 0 {
        Ok((Seq::empty(), pos))
    } else {
        match decode_legacy_shards(data, pos, total, count, (done - 1) as nat) {
            Err(e) => Err(e),
            Ok((shards, p)) => match decode_legacy_shard(
                data,
                p,
                legacy_share(total, count, done - 1),
            ) {
                Err(e) => Err(e),
                Ok((shard, next)) => Ok((shards.push(shard), next)),
            },
        }
    }
}

/// What follows the magic of a snapshot.
pub open spec fn decode_current(data: Seq<u8>, pos: int) -> Result<
    SnapshotContents,
    SnapshotError,
> {
    match decode_u32(data, pos) {
        Err(e) => Err(e),
        Ok((count, p1)) => match decode_shards(data, p1, (count as usize) as nat) {
            Err(e) => Err(e),
            Ok((shards, p2)) => match decode_offsets(data, p2) {
                Err(e) => Err(e),
                Ok((topics, _)) => {
                    let total_capacity = sum(image_capacities(shards));
                    if total_capacity <= usize::MAX {
                        Ok(SnapshotContents { total_capacity, shards, topics })
                    } else {
                        Err(SnapshotError::CapacityOverflow)
                    }
                },
            },
        },
    }
}

/// What follows the magic of a legacy snapshot.
pub open spec fn decode_legacy(data: Seq<u8>, pos: int) -> Result<
    SnapshotContents,
    SnapshotError,
> {
    match decode_u64(data, pos) {
        Err(e) => Err(e),
        Ok((total, p1)) => match decode_u32(data, p1) {
            Err(e) => Err(e),
            Ok((count, p2)) => match decode_legacy_shards(
                data,
                p2,
                total as usize,
                (count as usize) as nat,
                (count as usize) as nat,
            ) {
                Err(e) => Err(e),
                Ok((shards, p3)) => match decode_offsets(data, p3) {
                    Err(e) => Err(e),
                    Ok((topics, _)) => Ok(
                        SnapshotContents {
                            total_capacity: (total as usize) as nat,
                            shards,
                            topics,
                        },
                    ),
                },
            },
        },
    }
}

/// What a run of bytes holds as a snapshot of either format. Bytes behind the
/// snapshot are ignored.
pub open spec fn decode_snapshot(data: Seq<u8>) -> Result<SnapshotContents, SnapshotError> {
    match decode_bytes(data, 0, 8) {
        Err(e) => Err(e),
        Ok((first, pos)) => if first == magic() {
            decode_current(data, pos)
        } else if first == legacy_magic() {
            decode_legacy(data, pos)
        } else {
            Err(SnapshotError::InvalidMagic)
        },
    }
}

proof fn lemma_shards_error(data: Seq<u8>, pos: int, few: nat, many: nat)
    requires
        few <= many,
        decode_shards(data, pos, few) is Err,
    ensures
        decode_shards(data, pos, many) == decode_shards(data, pos, few),
    decreases many,
{
    if few < many {
        lemma_shards_error(data, pos, few, (many - 1) as nat);
    }
}

proof fn lemma_legacy_shards_error(
    data: Seq<u8>,
    pos: int,
    total: usize,
    count: nat,
    few: nat,
    many: nat,
)
    requires
        few <= many,
        decode_legacy_shards(data, pos, total, count, few) is Err,
    ensures
        decode_legacy_shards(data, pos, total, count, many) == decode_legacy_shards(
            data,
            pos,
            total,
            count,
            few,
        ),
    decreases many,
{
    if few < many {
        lemma_legacy_shards_error(data, pos, total, count, few, (many - 1) as nat);
    }
}

/// Whether two runs of bytes are the same.
fn same_bytes(a: &[u8], b: &[u8]) -> (same: bool)
    ensures
        same == (a@ == b@),
{
    if a.len() != b.len() {
        return false;
    }
    let mut i: usize = 0;
    while i < a.len()
        invariant
            a@.len() == b@.len(),
            i <= a@.len(),
            forall|j: int| 0 <= j < i ==> #[trigger] a@[j] == b@[j],
        decreases a@.len() - i,
    {
        if a[i] != b[i] {
            return false;
        }
        i += 1;
    }
    assert(a@ =~= b@);
    true
}

fn magic_bytes() -> (bytes: Vec<u8>)
    ensures
        bytes@ == magic(),
{
    let bytes: Vec<u8> = vec![0x43u8, 0x48u8, 0x49u8, 0x52u8, 0x4fu8, 0x4eu8, 0x30u8, 0x35u8];
    assert(bytes@ =~= magic());
    bytes
}

fn legacy_magic_bytes() -> (bytes: Vec<u8>)
    ensures
        bytes@ == legacy_magic(),
{
    let bytes: Vec<u8> = vec![0x43u8, 0x48u8, 0x49u8, 0x52u8, 0x4fu8, 0x4eu8, 0x30u8, 0x34u8];
    assert(bytes@ =~= legacy_magic());
    bytes
}

fn write_shard(buf: &mut Vec<u8>, shard: &SnapshotShard)
    ensures
        final(buf)@ == old(buf)@ + encode_shard(shard@),
{
    write_u32(buf, shard.shard_id);
    write_u64(buf, shard.capacity as u64);
    write_u64(buf, shard.next_offset);
    write_u64(buf, shard.entries.len() as u64);
    write_entries(buf, &shard.entries);
    assert(buf@ =~= old(buf)@ + encode_shard(shard@));
}

fn write_legacy_shard(buf: &mut Vec<u8>, shard: &SnapshotShard)
    ensures
        final(buf)@ == old(buf)@ + encode_legacy_shard(shard@),
{
    write_u32(buf, shard.shard_id);
    write_u64(buf, shard.next_offset);
    write_u64(buf, shard.entries.len() as u64);
    write_entries(buf, &shard.entries);
    assert(buf@ =~= old(buf)@ + encode_legacy_shard(shard@));
}

fn read_shard(data: &[u8], pos: &mut usize) -> (shard: Result<RestoredShard, SnapshotError>)
    requires
        *old(pos) <= data@.len(),
    ensures
        match decode_shard(data@, *old(pos) as int) {
            Ok((decoded, next)) => {
                &&& shard matches Ok(found)
                &&& found@ == decoded
                &&& *final(pos) == next
            },
            Err(e) => shard == Err::<RestoredShard, SnapshotError>(e),
        },
        shard is Ok ==> *final(pos) <= data@.len(),
{
    let shard_id: u32 = match read_u32(data, pos) {
        Ok(id) => id,
        Err(e) => return Err(e),
    };
    let capacity: usize = match read_u64(data, pos) {
        Ok(capacity) => capacity as usize,
        Err(e) => return Err(e),
    };
    let next_offset: u64 = match read_u64(data, pos) {
        Ok(offset) => offset,
        Err(e) => return Err(e),
    };
    let count: usize = match read_u64(data, pos) {
        Ok(count) => count as usize,
        Err(e) => return Err(e),
    };
    match read_entries(data, pos, count) {
        Ok(entries) => Ok(RestoredShard { shard_id, capacity, next_offset, entries }),
        Err(e) => Err(e),
    }
}

fn read_legacy_shard(data: &[u8], pos: &mut usize, capacity: usize) -> (shard: Result<
    RestoredShard,
    SnapshotError,
>)
    requires
        *old(pos) <= data@.len(),
    ensures
        match decode_legacy_shard(data@, *old(pos) as int, capacity) {
            Ok((decoded, next)) => {
                &&& shard matches Ok(found)
                &&& found@ == decoded
                &&& *final(pos) == next
            },
            Err(e) => shard == Err::<RestoredShard, SnapshotError>(e),
        },
        shard is Ok ==> *final(pos) <= data@.len(),
{
    let shard_id: u32 = match read_u32(data, pos) {
        Ok(id) => id,
        Err(e) => return Err(e),
    };
    let next_offset: u64 = match read_u64(data, pos) {
        Ok(offset) => offset,
        Err(e) => return Err(e),
    };
    let count: usize = match read_u64(data, pos) {
        Ok(count) => count as usize,
        Err(e) => return Err(e),
    };
    match read_entries(data, pos, count) {
        Ok(entries) => Ok(RestoredShard { shard_id, capacity, next_offset, entries }),
        Err(e) => Err(e),
    }
}

fn read_shards(data: &[u8], pos: &mut usize, count: usize) -> (shards: Result<
    Vec<RestoredShard>,
    SnapshotError,
>)
    requires
        *old(pos) <= data@.len(),
    ensures
        match decode_shards(data@, *old(pos) as int, count as nat) {
            Ok((decoded, next)) => {
                &&& shards matches Ok(found)
                &&& restored_images(found@) == decoded
                &&& *final(pos) == next
            },
            Err(e) => shards == Err::<Vec<RestoredShard>, SnapshotError>(e),
        },
        shards is Ok ==> *final(pos) <= data@.len(),
{
    let ghost start = *pos as int;
    let mut shards: Vec<RestoredShard> = Vec::new();
    let mut i: usize = 0;
    assert(restored_images(shards@) =~= Seq::empty());
    while i < count
        invariant
            i <= count,
            start == *old(pos),
            *pos <= data@.len(),
            decode_shards(data@, start, i as nat) == Ok::<(Seq<ShardImage>, int), SnapshotError>(
                (restored_images(shards@), *pos as int),
            ),
        decreases count - i,
    {
        match read_shard(data, pos) {
            Ok(shard) => {
                let ghost before = shards@;
                shards.push(shard);
                assert(restored_images(shards@) =~= restored_images(before).push(shard@));
            },
            Err(e) => {
                proof {
                    lemma_shards_error(data@, start, (i + 1) as nat, count as nat);
                }
                return Err(e);
            },
        }
        i += 1;
    }
    Ok(shards)
}

fn read_legacy_shards(data: &[u8], pos: &mut usize, total: usize, count: usize) -> (shards: Result<
    Vec<RestoredShard>,
    SnapshotError,
>)
    requires
        *old(pos) <= data@.len(),
    ensures
        match decode_legacy_shards(
            data@,
            *old(pos) as int,
            total,
            count as nat,
            count as nat,
        ) {
            Ok((decoded, next)) => {
                &&& shards matches Ok(found)
                &&& restored_images(found@) == decoded
                &&& *final(pos) == next
            },
            Err(e) => shards == Err::<Vec<RestoredShard>, SnapshotError>(e),
        },
        shards is Ok ==> *final(pos) <= data@.len(),
{
    let ghost start = *pos as int;
    let mut shards: Vec<RestoredShard> = Vec::new();
    let mut i: usize = 0;
    assert(restored_images(shards@) =~= Seq::empty());
    while i < count
        invariant
            i <= count,
            start == *old(pos),
            *pos <= data@.len(),
            decode_legacy_shards(data@, start, total, count as nat, i as nat) == Ok::<
                (Seq<ShardImage>, int),
                SnapshotError,
            >((restored_images(shards@), *pos as int)),
        decreases count - i,
    {
        let quotient: usize = total / count;
        let remainder: usize = total % count;
        proof {
            lemma_share_fits(total, count, i);
        }
        let capacity: usize = if i < remainder {
            quotient + 1
        } else {
            quotient
        };
        match read_legacy_shard(data, pos, capacity) {
            Ok(shard) => {
                let ghost before = shards@;
                shards.push(shard);
                assert(restored_images(shards@) =~= restored_images(before).push(shard@));
            },
            Err(e) => {
                proof {
                    lemma_legacy_shards_error(
                        data@,
                        start,
                        total,
                        count as nat,
                        (i + 1) as nat,
                        count as nat,
                    );
                }
                return Err(e);
            },
        }
        i += 1;
    }
    Ok(shards)
}

/// A share is at most the total.
proof fn lemma_share_fits(total: usize, count: usize, index: usize)
    requires
        count > 0,
    ensures
        total as nat / count as nat <= total,
        index < total as nat % count as nat ==> total as nat / count as nat + 1 <= total,
{
    let t = total as int;
    let c = count as int;
    vstd::arithmetic::div_mod::lemma_fundamental_div_mod(t, c);
    let q = t / c;
    assert(q <= c * q) by (nonlinear_arith)
        requires
            c > 0,
            q >= 0,
    ;
    assert(q >= 0) by (nonlinear_arith)
        requires
            q == t / c,
            t >= 0,
            c > 0,
    ;
}

/// The sum of the shards' shares, if it is a `usize`.
fn total_of_shares(shards: &Vec<RestoredShard>) -> (total: Option<usize>)
    ensures
        match total {
            Some(t) => t == sum(image_capacities(restored_images(shards@))),
            None => sum(image_capacities(restored_images(shards@))) > usize::MAX,
        },
{
    let ghost all = image_capacities(restored_images(shards@));
    let mut total: usize = 0;
    let mut i: usize = 0;
    while i < shards.len()
        invariant
            all == image_capacities(restored_images(shards@)),
            i <= shards@.len(),
            total == sum(all.take(i as int)),
        decreases shards@.len() - i,
    {
        proof {
            assert(all.take(i + 1) =~= all.take(i as int).push(all[i as int]));
            lemma_sum_push(all.take(i as int), all[i as int]);
            lemma_sum_prefix(all, i + 1);
        }
        match total.checked_add(shards[i].capacity) {
            Some(t) => {
                total = t;
            },
            None => {
                return None;
            },
        }
        i += 1;
    }
    assert(all.take(i as int) =~= all);
    Some(total)
}

/// Snapshots as bytes.
pub struct Snapshot;

impl Snapshot {
    /// The bytes of a snapshot of the given shards and Kafka offsets.
    pub fn save_sharded(shards: &[SnapshotShard], kafka_offsets: &KafkaOffsets) -> (data: Vec<u8>)
        ensures
            data@ == encode_snapshot(snapshot_images(shards@), kafka_offsets.listing()),
    {
        let ghost all = snapshot_images(shards@);
        let mut buf: Vec<u8> = magic_bytes();
        write_u32(&mut buf, shards.len() as u32);
        let ghost head = buf@;
        let mut i: usize = 0;
        assert(buf@ =~= head + encode_shards(all.take(0)));
        while i < shards.len()
            invariant
                all == snapshot_images(shards@),
                i <= shards@.len(),
                buf@ == head + encode_shards(all.take(i as int)),
            decreases shards@.len() - i,
        {
            proof {
                assert(all.take(i + 1).drop_last() =~= all.take(i as int));
                assert(all.take(i + 1).last() == shards@[i as int]@);
            }
            write_shard(&mut buf, &shards[i]);
            assert(buf@ =~= head + encode_shards(all.take(i + 1)));
            i += 1;
        }
        assert(all.take(i as int) =~= all);
        write_kafka_offsets(&mut buf, kafka_offsets);
        assert(buf@ =~= encode_snapshot(all, kafka_offsets.listing()));
        buf
    }

    /// The bytes of a legacy snapshot, which keeps the total capacity and not the
    /// shards' shares.
    pub fn save_legacy_sharded(
        total_capacity: usize,
        shards: &[SnapshotShard],
        kafka_offsets: &KafkaOffsets,
    ) -> (data: Vec<u8>)
        ensures
            data@ == encode_legacy_snapshot(
                total_capacity,
                snapshot_images(shards@),
                kafka_offsets.listing(),
            ),
    {
        let ghost all = snapshot_images(shards@);
        let mut buf: Vec<u8> = legacy_magic_bytes();
        write_u64(&mut buf, total_capacity as u64);
        write_u32(&mut buf, shards.len() as u32);
        let ghost head = buf@;
        let mut i: usize = 0;
        assert(buf@ =~= head + encode_legacy_shards(all.take(0)));
        while i < shards.len()
            invariant
                all == snapshot_images(shards@),
                i <= shards@.len(),
                buf@ == head + encode_legacy_shards(all.take(i as int)),
            decreases shards@.len() - i,
        {
            proof {
                assert(all.take(i + 1).drop_last() =~= all.take(i as int));
                assert(all.take(i + 1).last() == shards@[i as int]@);
            }
            write_legacy_shard(&mut buf, &shards[i]);
            assert(buf@ =~= head + encode_legacy_shards(all.take(i + 1)));
            i += 1;
        }
        assert(all.take(i as int) =~= all);
        write_kafka_offsets(&mut buf, kafka_offsets);
        assert(buf@ =~= encode_legacy_snapshot(total_capacity, all, kafka_offsets.listing()));
        buf
    }

    /// Reads a snapshot of either format: the total capacity, the shards, and the
    /// Kafka offsets.
    pub fn load_sharded(data: &[u8]) -> (loaded: Result<
        (usize, Vec<RestoredShard>, KafkaOffsets),
        SnapshotError,
    >)
        ensures
            match decode_snapshot(data@) {
                Ok(contents) => {
                    &&& loaded matches Ok((total_capacity, shards, offsets))
                    &&& total_capacity == contents.total_capacity
                    &&& restored_images(shards@) == contents.shards
                    &&& offsets@ == apply_topics(Map::empty(), contents.topics)
                    &&& offsets.wf()
                },
                Err(e) => loaded == Err::<(usize, Vec<RestoredShard>, KafkaOffsets), SnapshotError>(
                    e,
                ),
            },
    {
        let mut pos: usize = 0;
        let first: &[u8] = match read_bytes(data, &mut pos, 8) {
            Ok(bytes) => bytes,
            Err(e) => return Err(e),
        };
        if same_bytes(first, magic_bytes().as_slice()) {
            Self::load_current(data, pos)
        } else if same_bytes(first, legacy_magic_bytes().as_slice()) {
            Self::load_legacy(data, pos)
        } else {
            Err(SnapshotError::InvalidMagic)
        }
    }

    fn load_current(data: &[u8], start: usize) -> (loaded: Result<
        (usize, Vec<RestoredShard>, KafkaOffsets),
        SnapshotError,
    >)
        requires
            start <= data@.len(),
        ensures
            match decode_current(data@, start as int) {
                Ok(contents) => {
                    &&& loaded matches Ok((total_capacity, shards, offsets))
                    &&& total_capacity == contents.total_capacity
                    &&& restored_images(shards@) == contents.shards
                    &&& offsets@ == apply_topics(Map::empty(), contents.topics)
                    &&& offsets.wf()
                },
                Err(e) => loaded == Err::<(usize, Vec<RestoredShard>, KafkaOffsets), SnapshotError>(
                    e,
                ),
            },
    {
        let mut pos: usize = start;
        let shard_count: usize = match read_u32(data, &mut pos) {
            Ok(count) => count as usize,
            Err(e) => return Err(e),
        };
        let shards: Vec<RestoredShard> = match read_shards(data, &mut pos, shard_count) {
            Ok(shards) => shards,
            Err(e) => return Err(e),
        };
        let kafka_offsets: KafkaOffsets = match read_kafka_offsets(data, &mut pos) {
            Ok(offsets) => offsets,
            Err(e) => return Err(e),
        };
        match total_of_shares(&shards) {
            Some(total_capacity) => Ok((total_capacity, shards, kafka_offsets)),
            None => Err(SnapshotError::CapacityOverflow),
        }
    }

    fn load_legacy(data: &[u8], start: usize) -> (loaded: Result<
        (usize, Vec<RestoredShard>, KafkaOffsets),
        SnapshotError,
    >)
        requires
            start <= data@.len(),
        ensures
            match decode_legacy(data@, start as int) {
                Ok(contents) => {
                    &&& loaded matches Ok((total_capacity, shards, offsets))
                    &&& total_capacity == contents.total_capacity
                    &&& restored_images(shards@) == contents.shards
                    &&& offsets@ == apply_topics(Map::empty(), contents.topics)
                    &&& offsets.wf()
                },
                Err(e) => loaded == Err::<(usize, Vec<RestoredShard>, KafkaOffsets), SnapshotError>(
                    e,
                ),
            },
    {
        let mut pos: usize = start;
        let total_capacity: usize = match read_u64(data, &mut pos) {
            Ok(total) => total as usize,
            Err(e) => return Err(e),
        };
        let shard_count: usize = match read_u32(data, &mut pos) {
            Ok(count) => count as usize,
            Err(e) => return Err(e),
        };
        let shards: Vec<RestoredShard> = match read_legacy_shards(
            data,
            &mut pos,
            total_capacity,
            shard_count,
        ) {
            Ok(shards) => shards,
            Err(e) => return Err(e),
        };
        match read_kafka_offsets(data, &mut pos) {
            Ok(kafka_offsets) => Ok((total_capacity, shards, kafka_offsets)),
            Err(e) => Err(e),
        }
    }
}

/// A shard that is written or read says what its fields hold, and a sequence of shards what
/// each of them says, in their order.
pub proof fn images_say_what_their_fields_hold(
    written: Seq<SnapshotShard>,
    read: Seq<RestoredShard>,
    shards: Seq<ShardImage>,
    i: int,
)
    ensures
        snapshot_images(written).len() == written.len(),
        0 <= i < written.len() ==> snapshot_images(written)[i] == (ShardImage {
            id: written[i].shard_id,
            capacity: written[i].capacity,
            next_offset: written[i].next_offset,
            records: entry_records(written[i].entries@),
        }),
        restored_images(read).len() == read.len(),
        0 <= i < read.len() ==> restored_images(read)[i] == (ShardImage {
            id: read[i].shard_id,
            capacity: read[i].capacity,
            next_offset: read[i].next_offset,
            records: entry_records(read[i].entries@),
        }),
        image_capacities(shards).len() == shards.len(),
        0 <= i < shards.len() ==> image_capacities(shards)[i] == shards[i].capacity,
{
}

} // verus!
