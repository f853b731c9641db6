//! Offsets as positions in a run of records, and what an inverted index says
//! about such a run.
//!
//! A buffer holds a run of records at consecutive offsets. The first record
//! lies at offset `base`, the next at `base + 1`, and so on.

use crate::inverted_index::{at_least, purged, with_offset};
use crate::log_entry::Record;
use vstd::prelude::*;

verus! {

/// The dimensions by which records are indexed.
pub enum Dimension {
    Service,
    Host,
}

/// The value of a record in a dimension.
pub open spec fn dimension_value(record: Record, dimension: Dimension) -> Seq<char> {
    match dimension {
        Dimension::Service => record.service,
        Dimension::Host => record.host,
    }
}

/// Whether a record has the value `key` in a dimension.
pub open spec fn has(dimension: Dimension, key: Seq<char>) -> spec_fn(Record) -> bool {
    |record: Record| dimension_value(record, dimension) == key
}

/// Whether a record satisfies both conditions.
pub open spec fn both(
    p: spec_fn(Record) -> bool,
    q: spec_fn(Record) -> bool,
) -> spec_fn(Record) -> bool {
    |record: Record| p(record) && q(record)
}

/// Whether a record satisfies `p` and has its timestamp in `[t1, t2]`.
pub open spec fn within(p: spec_fn(Record) -> bool, t1: i64, t2: i64) -> spec_fn(Record) -> bool {
    |record: Record| p(record) && t1 <= record.timestamp <= t2
}

/// The offsets, in increasing order, of the records that satisfy `p`.
pub open spec fn offsets_where(
    records: Seq<Record>,
    base: int,
    p: spec_fn(Record) -> bool,
) -> Seq<u64>
    decreases records.len(),
{
    if records.len() == 0 {
        Seq::empty()
    } else {
        let rest = offsets_where(records.drop_last(), base, p);
        if p(records.last()) {
            rest.push((base + records.len() - 1) as u64)
        } else {
            rest
        }
    }
}

/// The records that lie at the given offsets and have their timestamp in
/// `[t1, t2]`; an offset outside the run contributes nothing.
pub open spec fn collected(
    records: Seq<Record>,
    base: int,
    offsets: Seq<u64>,
    t1: i64,
    t2: i64,
) -> Seq<Record>
    decreases offsets.len(),
{
    if offsets.len() == 0 {
        Seq::empty()
    } else {
        let rest = collected(records, base, offsets.drop_last(), t1, t2);
        let at = offsets.last() - base;
        if 0 <= at < records.len() && t1 <= records[at].timestamp <= t2 {
            rest.push(records[at])
        } else {
            rest
        }
    }
}

pub open spec fn strictly_increasing(offsets: Seq<u64>) -> bool {
    forall|i: int, j: int| 0 <= i < j < offsets.len() ==> offsets[i] < offsets[j]
}

/// The offsets that an index lists for a key.
pub open spec fn postings(index: Map<Seq<char>, Seq<u64>>, key: Seq<char>) -> Seq<u64> {
    if index.contains_key(key) {
        index[key]
    } else {
        Seq::empty()
    }
}

/// An index of a run of records in one dimension: for every key it lists, in
/// increasing order, exactly the offsets of the run's records with that value.
/// It may still list offsets from before the run.
pub open spec fn indexes(
    index: Map<Seq<char>, Seq<u64>>,
    records: Seq<Record>,
    base: int,
    dimension: Dimension,
) -> bool {
    forall|key: Seq<char>| #[trigger]
        indexes_key(postings(index, key), records, base, dimension, key)
}

/// What `indexes` says of one key.
pub open spec fn indexes_key(
    offsets: Seq<u64>,
    records: Seq<Record>,
    base: int,
    dimension: Dimension,
    key: Seq<char>,
) -> bool {
    &&& strictly_increasing(offsets)
    &&& forall|i: int| 0 <= i < offsets.len() ==> (#[trigger] offsets[i]) < base + records.len()
    &&& offsets.filter(at_least(base as u64)) == offsets_where(records, base, has(dimension, key))
}

/// The index of a run that lists the offsets of its records and no others.
pub open spec fn index_of(records: Seq<Record>, base: int, dimension: Dimension) -> Map<
    Seq<char>,
    Seq<u64>,
> {
    Map::new(
        |key: Seq<char>| offsets_where(records, base, has(dimension, key)).len() > 0,
        |key: Seq<char>| offsets_where(records, base, has(dimension, key)),
    )
}

/// The index of no records is empty.
pub proof fn lemma_index_of_none(base: int, dimension: Dimension)
    ensures
        index_of(Seq::empty(), base, dimension) == Map::<Seq<char>, Seq<u64>>::empty(),
{
    assert(index_of(Seq::empty(), base, dimension) =~= Map::<Seq<char>, Seq<u64>>::empty());
}

/// One more record adds its offset to an index.
pub proof fn lemma_index_of(records: Seq<Record>, base: int, dimension: Dimension, record: Record)
    ensures
        index_of(records.push(record), base, dimension) == with_offset(
            index_of(records, base, dimension),
            dimension_value(record, dimension),
            (base + records.len()) as u64,
        ),
{
    let before = index_of(records, base, dimension);
    let more = records.push(record);
    let value = dimension_value(record, dimension);
    let offset = (base + records.len()) as u64;
    let wanted = with_offset(before, value, offset);
    assert(more.drop_last() =~= records);
    assert forall|key: Seq<char>| #[trigger] index_of(more, base, dimension).contains_key(key)
        == wanted.contains_key(key) && (wanted.contains_key(key) ==> index_of(
        more,
        base,
        dimension,
    )[key] == wanted[key]) by {
        let list = offsets_where(records, base, has(dimension, key));
        if key == value {
            assert(list.len() == 0 ==> list.push(offset) =~= seq![offset]);
        }
    }
    assert(index_of(more, base, dimension) =~= wanted);
}

pub proof fn lemma_offsets_where(records: Seq<Record>, base: int, p: spec_fn(Record) -> bool)
    requires
        0 <= base,
        base + records.len() <= u64::MAX,
    ensures
        strictly_increasing(offsets_where(records, base, p)),
        forall|i: int|
            0 <= i < offsets_where(records, base, p).len() ==> base <= (#[trigger] offsets_where(
                records,
                base,
                p,
            )[i]) < base + records.len() && p(
                records[offsets_where(records, base, p)[i] - base],
            ),
        forall|at: int|
            0 <= at < records.len() && p(#[trigger] records[at]) ==> offsets_where(
                records,
                base,
                p,
            ).contains((base + at) as u64),
    decreases records.len(),
{
    if records.len() > 0 {
        let rest = offsets_where(records.drop_last(), base, p);
        let all = offsets_where(records, base, p);
        lemma_offsets_where(records.drop_last(), base, p);
        assert forall|i: int| 0 <= i < all.len() implies base <= (#[trigger] all[i]) < base
            + records.len() && p(records[all[i] - base]) by {
            if i < rest.len() {
                assert(all[i] == rest[i]);
                assert(records.drop_last()[rest[i] - base] == records[all[i] - base]);
            }
        }
        assert forall|at: int|
            0 <= at < records.len() && p(#[trigger] records[at]) implies all.contains(
            (base + at) as u64,
        ) by {
            if at < records.len() - 1 {
                assert(records.drop_last()[at] == records[at]);
                let i = choose|i: int| 0 <= i < rest.len() && rest[i] == (base + at) as u64;
                assert(all[i] == (base + at) as u64);
            } else {
                assert(all.last() == (base + at) as u64);
                assert(all[all.len() - 1] == (base + at) as u64);
            }
        }
    }
}

/// Two strictly increasing sequences with the same members are the same.
pub proof fn lemma_same_members(a: Seq<u64>, b: Seq<u64>)
    requires
        strictly_increasing(a),
        strictly_increasing(b),
        forall|x: u64| a.contains(x) <==> b.contains(x),
    ensures
        a == b,
    decreases a.len(),
{
    if a.len() == 0 {
        if b.len() > 0 {
            assert(b.contains(b[0]));
        }
    } else {
        assert(a.contains(a.last()));
        assert(b.len() > 0) by {
            let i = choose|i: int| 0 <= i < b.len() && b[i] == a.last();
            assert(b[i] == a.last());
        }
        assert(b.contains(b.last()));
        let i = choose|i: int| 0 <= i < b.len() && b[i] == a.last();
        let j = choose|j: int| 0 <= j < a.len() && a[j] == b.last();
        assert(a.last() == b.last());
        assert forall|x: u64| a.drop_last().contains(x) <==> b.drop_last().contains(x) by {
            if a.drop_last().contains(x) {
                let m = choose|m: int| 0 <= m < a.drop_last().len() && a.drop_last()[m] == x;
                assert(a[m] == x && a.contains(x));
                let n = choose|n: int| 0 <= n < b.len() && b[n] == x;
                assert(b.drop_last()[n] == x);
            }
            if b.drop_last().contains(x) {
                let m = choose|m: int| 0 <= m < b.drop_last().len() && b.drop_last()[m] == x;
                assert(b[m] == x && b.contains(x));
                let n = choose|n: int| 0 <= n < a.len() && a[n] == x;
                assert(a.drop_last()[n] == x);
            }
        }
        lemma_same_members(a.drop_last(), b.drop_last());
        assert(a =~= a.drop_last().push(a.last()));
        assert(b =~= b.drop_last().push(b.last()));
    }
    assert(a =~= b);
}

/// Filtering keeps the order and exactly the members that satisfy the
/// condition.
pub proof fn lemma_filter_increasing(offsets: Seq<u64>, p: spec_fn(u64) -> bool)
    requires
        strictly_increasing(offsets),
    ensures
        strictly_increasing(offsets.filter(p)),
        forall|x: u64| #[trigger]
            offsets.filter(p).contains(x) <==> offsets.contains(x) && p(x),
    decreases offsets.len(),
{
    reveal(Seq::filter);
    if offsets.len() > 0 {
        let rest = offsets.drop_last();
        let kept = rest.filter(p);
        lemma_filter_increasing(rest, p);
        assert forall|i: int, j: int| 0 <= i < j < offsets.filter(p).len() implies offsets.filter(
            p,
        )[i] < offsets.filter(p)[j] by {
            if j == kept.len() {
                assert(kept.contains(kept[i]));
                let m = choose|m: int| 0 <= m < rest.len() && rest[m] == kept[i];
                assert(offsets[m] == kept[i]);
            }
        }
        assert forall|x: u64| #[trigger]
            offsets.filter(p).contains(x) <==> offsets.contains(x) && p(x) by {
            if offsets.filter(p).contains(x) {
                let m = choose|m: int|
                    0 <= m < offsets.filter(p).len() && offsets.filter(p)[m] == x;
                if m < kept.len() {
                    assert(kept[m] == x && kept.contains(x));
                    let n = choose|n: int| 0 <= n < rest.len() && rest[n] == x;
                    assert(offsets[n] == x);
                } else {
                    assert(offsets[offsets.len() - 1] == x);
                }
            }
            if offsets.contains(x) && p(x) {
                let n = choose|n: int| 0 <= n < offsets.len() && offsets[n] == x;
                if n < rest.len() {
                    assert(rest[n] == x && rest.contains(x));
                    let m = choose|m: int| 0 <= m < kept.len() && kept[m] == x;
                    assert(offsets.filter(p)[m] == x);
                } else {
                    assert(offsets.filter(p)[kept.len() as int] == x);
                }
            }
        }
    }
}

/// Dropping the oldest records drops exactly the offsets below the new base.
pub proof fn lemma_offsets_skip(
    records: Seq<Record>,
    base: int,
    p: spec_fn(Record) -> bool,
    count: int,
)
    requires
        0 <= base,
        base + records.len() <= u64::MAX,
        0 <= count <= records.len(),
    ensures
        offsets_where(records.skip(count), base + count, p) == offsets_where(
            records,
            base,
            p,
        ).filter(at_least((base + count) as u64)),
{
    let kept = offsets_where(records.skip(count), base + count, p);
    let all = offsets_where(records, base, p);
    let min = (base + count) as u64;
    lemma_offsets_where(records, base, p);
    lemma_offsets_where(records.skip(count), base + count, p);
    lemma_filter_increasing(all, at_least(min));
    assert forall|x: u64| kept.contains(x) <==> all.filter(at_least(min)).contains(x) by {
        if kept.contains(x) {
            let i = choose|i: int| 0 <= i < kept.len() && kept[i] == x;
            assert(p(records.skip(count)[kept[i] - (base + count)]));
            assert(p(records[x - base]));
            assert(all.contains((base + (x - base)) as u64));
        }
        if all.filter(at_least(min)).contains(x) {
            assert(all.contains(x));
            let i = choose|i: int| 0 <= i < all.len() && all[i] == x;
            assert(p(records[all[i] - base]));
            assert(records.skip(count)[x - (base + count)] == records[x - base]);
            assert(kept.contains(((base + count) + (x - (base + count))) as u64));
        }
    }
    lemma_same_members(kept, all.filter(at_least(min)));
}

/// An index of a run is an index of the run with one more record, once the
/// record's offset is listed under the record's value.
pub proof fn lemma_index_push(
    index: Map<Seq<char>, Seq<u64>>,
    records: Seq<Record>,
    base: int,
    dimension: Dimension,
    record: Record,
)
    requires
        0 <= base,
        base + records.len() < u64::MAX,
        indexes(index, records, base, dimension),
    ensures
        indexes(
            with_offset(
                index,
                dimension_value(record, dimension),
                (base + records.len()) as u64,
            ),
            records.push(record),
            base,
            dimension,
        ),
{
    let value = dimension_value(record, dimension);
    let next = (base + records.len()) as u64;
    let longer = with_offset(index, value, next);
    assert forall|key: Seq<char>| #[trigger]
        indexes_key(postings(longer, key), records.push(record), base, dimension, key) by {
        assert(indexes_key(postings(index, key), records, base, dimension, key));
        assert(records.push(record).drop_last() =~= records);
        assert(postings(longer, key) =~= if key == value {
            postings(index, key).push(next)
        } else {
            postings(index, key)
        });
        if key == value {
            let old_list = postings(index, key);
            reveal(Seq::filter);
            assert(old_list.push(next).drop_last() =~= old_list);
        }
    }
}

/// An index of a run is an index of what is left of the run when the oldest
/// records go.
pub proof fn lemma_index_skip(
    index: Map<Seq<char>, Seq<u64>>,
    records: Seq<Record>,
    base: int,
    dimension: Dimension,
    count: int,
)
    requires
        0 <= base,
        base + records.len() <= u64::MAX,
        0 <= count <= records.len(),
        indexes(index, records, base, dimension),
    ensures
        indexes(index, records.skip(count), base + count, dimension),
{
    assert forall|key: Seq<char>| #[trigger]
        indexes_key(postings(index, key), records.skip(count), base + count, dimension, key) by {
        let list = postings(index, key);
        assert(indexes_key(list, records, base, dimension, key));
        lemma_offsets_skip(records, base, has(dimension, key), count);
        lemma_filter_filter(list, base as u64, (base + count) as u64);
    }
}

/// Of two bounds the higher one decides.
pub proof fn lemma_filter_filter(list: Seq<u64>, low: u64, high: u64)
    requires
        low <= high,
        strictly_increasing(list),
    ensures
        list.filter(at_least(low)).filter(at_least(high)) == list.filter(at_least(high)),
{
    lemma_filter_increasing(list, at_least(low));
    lemma_filter_increasing(list.filter(at_least(low)), at_least(high));
    lemma_filter_increasing(list, at_least(high));
    lemma_same_members(
        list.filter(at_least(low)).filter(at_least(high)),
        list.filter(at_least(high)),
    );
}

/// Purging the offsets from before the run leaves an index of the run.
pub proof fn lemma_index_purge(
    index: Map<Seq<char>, Seq<u64>>,
    records: Seq<Record>,
    base: int,
    dimension: Dimension,
)
    requires
        0 <= base,
        base + records.len() <= u64::MAX,
        indexes(index, records, base, dimension),
    ensures
        indexes(purged(index, base as u64), records, base, dimension),
{
    let min = base as u64;
    assert forall|key: Seq<char>| #[trigger]
        indexes_key(postings(purged(index, min), key), records, base, dimension, key) by {
        let list = postings(index, key);
        assert(indexes_key(list, records, base, dimension, key));
        assert(Seq::<u64>::empty().filter(at_least(min)) =~= Seq::<u64>::empty()) by {
            reveal(Seq::filter);
        }
        assert(postings(purged(index, min), key) =~= list.filter(at_least(min)));
        lemma_filter_increasing(list, at_least(min));
        lemma_filter_filter(list, min, min);
        let kept = list.filter(at_least(min));
        assert forall|i: int| 0 <= i < kept.len() implies (#[trigger] kept[i]) < base
            + records.len() by {
            assert(kept.contains(kept[i]));
            let m = choose|m: int| 0 <= m < list.len() && list[m] == kept[i];
            assert(list[m] < base + records.len());
        }
    }
}

/// An empty index is an index of an empty run.
pub proof fn lemma_index_empty(base: int, dimension: Dimension)
    ensures
        indexes(Map::<Seq<char>, Seq<u64>>::empty(), Seq::empty(), base, dimension),
{
    reveal(Seq::filter);
    assert forall|key: Seq<char>| #[trigger]
        indexes_key(
            postings(Map::<Seq<char>, Seq<u64>>::empty(), key),
            Seq::empty(),
            base,
            dimension,
            key,
        ) by {}
}

proof fn lemma_collected_extend(
    records: Seq<Record>,
    record: Record,
    base: int,
    offsets: Seq<u64>,
    t1: i64,
    t2: i64,
)
    requires
        forall|i: int| 0 <= i < offsets.len() ==> (#[trigger] offsets[i]) < base + records.len(),
    ensures
        collected(records.push(record), base, offsets, t1, t2) == collected(
            records,
            base,
            offsets,
            t1,
            t2,
        ),
    decreases offsets.len(),
{
    if offsets.len() > 0 {
        lemma_collected_extend(records, record, base, offsets.drop_last(), t1, t2);
    }
}

/// Collecting the offsets of the records that satisfy `p` yields the records
/// that satisfy `p` and lie in the time range, in their order.
pub proof fn lemma_collected_where(
    records: Seq<Record>,
    base: int,
    p: spec_fn(Record) -> bool,
    t1: i64,
    t2: i64,
)
    requires
        0 <= base,
        base + records.len() <= u64::MAX,
    ensures
        collected(records, base, offsets_where(records, base, p), t1, t2) == records.filter(
            within(p, t1, t2),
        ),
    decreases records.len(),
{
    reveal(Seq::filter);
    if records.len() > 0 {
        let rest = records.drop_last();
        let offsets = offsets_where(rest, base, p);
        lemma_collected_where(rest, base, p, t1, t2);
        lemma_offsets_where(rest, base, p);
        lemma_collected_extend(rest, records.last(), base, offsets, t1, t2);
        assert(rest.push(records.last()) =~= records);
        let next = (base + records.len() - 1) as u64;
        assert(offsets.push(next).drop_last() =~= offsets);
        assert(offsets.push(next).last() == next);
    }
}

/// Offsets from before the run contribute nothing to what is collected.
pub proof fn lemma_collected_live(
    records: Seq<Record>,
    base: int,
    offsets: Seq<u64>,
    t1: i64,
    t2: i64,
)
    requires
        0 <= base <= u64::MAX,
    ensures
        collected(records, base, offsets, t1, t2) == collected(
            records,
            base,
            offsets.filter(at_least(base as u64)),
            t1,
            t2,
        ),
    decreases offsets.len(),
{
    reveal(Seq::filter);
    if offsets.len() > 0 {
        let rest = offsets.drop_last();
        lemma_collected_live(records, base, rest, t1, t2);
        let kept = rest.filter(at_least(base as u64));
        assert(kept.push(offsets.last()).drop_last() =~= kept);
        assert(kept.push(offsets.last()).last() == offsets.last());
    }
}

/// Collecting what an index lists for a key yields the run's records with that
/// value in the time range, in their order.
pub proof fn lemma_collected_postings(
    index: Map<Seq<char>, Seq<u64>>,
    records: Seq<Record>,
    base: int,
    dimension: Dimension,
    key: Seq<char>,
    t1: i64,
    t2: i64,
)
    requires
        0 <= base,
        base + records.len() <= u64::MAX,
        indexes(index, records, base, dimension),
    ensures
        collected(records, base, postings(index, key), t1, t2) == records.filter(
            within(has(dimension, key), t1, t2),
        ),
{
    assert(indexes_key(postings(index, key), records, base, dimension, key));
    lemma_collected_live(records, base, postings(index, key), t1, t2);
    lemma_collected_where(records, base, has(dimension, key), t1, t2);
}

/// The common members of two sequences, as met when both are walked in step.
pub open spec fn intersection(a: Seq<u64>, b: Seq<u64>) -> Seq<u64>
    decreases a.len() + b.len(),
{
    if a.len() == 0 || b.len() == 0 {
        Seq::empty()
    } else if a[0] == b[0] {
        seq![a[0]] + intersection(a.skip(1), b.skip(1))
    } else if a[0] < b[0] {
        intersection(a.skip(1), b)
    } else {
        intersection(a, b.skip(1))
    }
}

/// Of two strictly increasing sequences, the intersection holds exactly the
/// common members, in increasing order.
pub proof fn intersection_of_increasing(a: Seq<u64>, b: Seq<u64>)
    requires
        strictly_increasing(a),
        strictly_increasing(b),
    ensures
        strictly_increasing(intersection(a, b)),
        forall|x: u64| #[trigger]
            intersection(a, b).contains(x) <==> a.contains(x) && b.contains(x),
    decreases a.len() + b.len(),
{
    let all = intersection(a, b);
    if a.len() == 0 || b.len() == 0 {
    } else {
        let ta = a.skip(1);
        let tb = b.skip(1);
        assert forall|x: u64| #[trigger] a.contains(x) <==> x == a[0] || ta.contains(x) by {
            if a.contains(x) {
                let i = choose|i: int| 0 <= i < a.len() && a[i] == x;
                if i > 0 {
                    assert(ta[i - 1] == x);
                }
            }
            if ta.contains(x) {
                let i = choose|i: int| 0 <= i < ta.len() && ta[i] == x;
                assert(a[i + 1] == x);
            }
        }
        assert forall|x: u64| #[trigger] b.contains(x) <==> x == b[0] || tb.contains(x) by {
            if b.contains(x) {
                let i = choose|i: int| 0 <= i < b.len() && b[i] == x;
                if i > 0 {
                    assert(tb[i - 1] == x);
                }
            }
            if tb.contains(x) {
                let i = choose|i: int| 0 <= i < tb.len() && tb[i] == x;
                assert(b[i + 1] == x);
            }
        }
        assert forall|x: u64| #[trigger] ta.contains(x) implies x > a[0] by {
            let i = choose|i: int| 0 <= i < ta.len() && ta[i] == x;
            assert(a[i + 1] == x);
        }
        assert forall|x: u64| #[trigger] tb.contains(x) implies x > b[0] by {
            let i = choose|i: int| 0 <= i < tb.len() && tb[i] == x;
            assert(b[i + 1] == x);
        }
        if a[0] == b[0] {
            intersection_of_increasing(ta, tb);
            let rest = intersection(ta, tb);
            assert forall|x: u64| #[trigger]
                all.contains(x) <==> a.contains(x) && b.contains(x) by {
                if all.contains(x) {
                    let i = choose|i: int| 0 <= i < all.len() && all[i] == x;
                    if i > 0 {
                        assert(rest[i - 1] == x && rest.contains(x));
                    }
                }
                if a.contains(x) && b.contains(x) {
                    if x == a[0] {
                        assert(all[0] == x);
                    } else {
                        assert(rest.contains(x));
                        let i = choose|i: int| 0 <= i < rest.len() && rest[i] == x;
                        assert(all[i + 1] == x);
                    }
                }
            }
            assert forall|i: int, j: int| 0 <= i < j < all.len() implies all[i] < all[j] by {
                assert(all[j] == rest[j - 1] && rest.contains(rest[j - 1]));
                if i > 0 {
                    assert(all[i] == rest[i - 1]);
                }
            }
        } else if a[0] < b[0] {
            intersection_of_increasing(ta, b);
        } else {
            intersection_of_increasing(a, tb);
        }
    }
}

/// Collecting what two indexes both list yields the run's records with both
/// values in the time range, in their order.
pub proof fn lemma_collected_intersection(
    services: Map<Seq<char>, Seq<u64>>,
    hosts: Map<Seq<char>, Seq<u64>>,
    records: Seq<Record>,
    base: int,
    service: Seq<char>,
    host: Seq<char>,
    t1: i64,
    t2: i64,
)
    requires
        0 <= base,
        base + records.len() <= u64::MAX,
        indexes(services, records, base, Dimension::Service),
        indexes(hosts, records, base, Dimension::Host),
    ensures
        collected(
            records,
            base,
            intersection(postings(services, service), postings(hosts, host)),
            t1,
            t2,
        ) == records.filter(
            within(both(has(Dimension::Service, service), has(Dimension::Host, host)), t1, t2),
        ),
{
    let p = has(Dimension::Service, service);
    let q = has(Dimension::Host, host);
    let a = postings(services, service);
    let b = postings(hosts, host);
    let min = base as u64;
    assert(indexes_key(a, records, base, Dimension::Service, service));
    assert(indexes_key(b, records, base, Dimension::Host, host));
    intersection_of_increasing(a, b);
    let common = intersection(a, b).filter(at_least(min));
    let wanted = offsets_where(records, base, both(p, q));
    lemma_filter_increasing(intersection(a, b), at_least(min));
    lemma_filter_increasing(a, at_least(min));
    lemma_filter_increasing(b, at_least(min));
    lemma_offsets_where(records, base, p);
    lemma_offsets_where(records, base, q);
    lemma_offsets_where(records, base, both(p, q));
    assert forall|x: u64| common.contains(x) <==> wanted.contains(x) by {
        let la = offsets_where(records, base, p);
        let lb = offsets_where(records, base, q);
        if common.contains(x) {
            assert(la.contains(x) && lb.contains(x));
            let i = choose|i: int| 0 <= i < la.len() && la[i] == x;
            let j = choose|j: int| 0 <= j < lb.len() && lb[j] == x;
            assert(p(records[la[i] - base]) && q(records[lb[j] - base]));
            assert(both(p, q)(records[x - base]));
            assert(wanted.contains((base + (x - base)) as u64));
        }
        if wanted.contains(x) {
            let i = choose|i: int| 0 <= i < wanted.len() && wanted[i] == x;
            assert(both(p, q)(records[wanted[i] - base]));
            assert(la.contains((base + (x - base)) as u64));
            assert(lb.contains((base + (x - base)) as u64));
            assert(a.filter(at_least(min)).contains(x));
            assert(b.filter(at_least(min)).contains(x));
            assert(intersection(a, b).contains(x));
        }
    }
    lemma_same_members(common, wanted);
    lemma_collected_live(records, base, intersection(a, b), t1, t2);
    lemma_collected_where(records, base, both(p, q), t1, t2);
}

/// Intersect two sorted offset slices from different indexes.
pub fn intersect_sorted(a: Option<&[u64]>, b: Option<&[u64]>) -> (common: Vec<u64>)
    ensures
        common@ == match (a, b) {
            (Some(x), Some(y)) => intersection(x@, y@),
            _ => Seq::empty(),
        },
{
    let a = match a {
        Some(list) => list,
        None => return Vec::new(),
    };
    let b = match b {
        Some(list) => list,
        None => return Vec::new(),
    };
    let mut common: Vec<u64> = Vec::new();
    let mut i: usize = 0;
    let mut j: usize = 0;
    assert(a@.skip(0) =~= a@);
    assert(b@.skip(0) =~= b@);
    assert(common@ + intersection(a@, b@) =~= intersection(a@, b@));
    while i < a.len() && j < b.len()
        invariant
            i <= a@.len(),
            j <= b@.len(),
            common@ + intersection(a@.skip(i as int), b@.skip(j as int)) == intersection(a@, b@),
        decreases a@.len() - i + b@.len() - j,
    {
        let ghost ta = a@.skip(i as int);
        let ghost tb = b@.skip(j as int);
        assert(ta.skip(1) =~= a@.skip(i + 1));
        assert(tb.skip(1) =~= b@.skip(j + 1));
        assert(ta[0] == a@[i as int] && tb[0] == b@[j as int]);
        if a[i] == b[j] {
            let ghost before = common@;
            common.push(a[i]);
            assert(before + (seq![ta[0]] + intersection(ta.skip(1), tb.skip(1))) =~= common@
                + intersection(ta.skip(1), tb.skip(1)));
            i += 1;
            j += 1;
        } else if a[i] < b[j] {
            i += 1;
        } else {
            j += 1;
        }
    }
    assert(common@ =~= intersection(a@, b@));
    common
}

} // verus!
