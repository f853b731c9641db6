//! Inverted index from a dimension value (a service name, a host id) to the
//! offsets of the entries that carry it.

use vstd::hash_map::StringHashMap;
use vstd::prelude::*;

verus! {

/// The offsets come in nondecreasing order.
pub open spec fn nondecreasing(offsets: Seq<u64>) -> bool {
    forall|i: int, j: int| 0 <= i <= j < offsets.len() ==> offsets[i] <= offsets[j]
}

/// Whether an offset lies at or above `min_offset`.
pub open spec fn at_least(min_offset: u64) -> spec_fn(u64) -> bool {
    |offset: u64| offset >= min_offset
}

/// An index without its offsets below `min_offset`, and without the keys that
/// have no offset left.
pub open spec fn purged(index: Map<Seq<char>, Seq<u64>>, min_offset: u64) -> Map<
    Seq<char>,
    Seq<u64>,
> {
    Map::new(
        |key: Seq<char>|
            index.contains_key(key) && index[key].filter(at_least(min_offset)).len() > 0,
        |key: Seq<char>| index[key].filter(at_least(min_offset)),
    )
}

proof fn lemma_filter_at_least_twice(offsets: Seq<u64>, low: u64, high: u64)
    requires
        low <= high,
    ensures
        offsets.filter(at_least(low)).filter(at_least(high)) == offsets.filter(at_least(high)),
    decreases offsets.len(),
{
    reveal(Seq::filter);
    if offsets.len() > 0 {
        let rest = offsets.drop_last();
        let last = offsets.last();
        lemma_filter_at_least_twice(rest, low, high);
        if last >= low {
            assert(rest.filter(at_least(low)).push(last).drop_last() =~= rest.filter(
                at_least(low),
            ));
        }
    }
}

/// Purging below a bound and then below a higher one is purging below the higher one.
pub proof fn purging_twice_is_purging_once(
    index: Map<Seq<char>, Seq<u64>>,
    low: u64,
    high: u64,
)
    requires
        low <= high,
    ensures
        purged(purged(index, low), high) == purged(index, high),
{
    let once = purged(index, low);
    assert forall|key: Seq<char>| #[trigger] purged(once, high).contains_key(key) == purged(
        index,
        high,
    ).contains_key(key) && (purged(index, high).contains_key(key) ==> purged(once, high)[key]
        == purged(index, high)[key]) by {
        if index.contains_key(key) {
            lemma_filter_at_least_twice(index[key], low, high);
            reveal(Seq::filter);
        }
    }
    assert(purged(once, high) =~= purged(index, high));
}

/// An index with one more offset at the end of the list of `key`.
pub open spec fn with_offset(
    index: Map<Seq<char>, Seq<u64>>,
    key: Seq<char>,
    offset: u64,
) -> Map<Seq<char>, Seq<u64>> {
    if index.contains_key(key) {
        index.insert(key, index[key].push(offset))
    } else {
        index.insert(key, seq![offset])
    }
}

/// One key with its offsets.
struct Posting {
    key: String,
    offsets: Vec<u64>,
}

/// Inverted index mapping dimension values (service name, host id) to
/// offsets in the primary buffer.
///
/// Each dimension key maps to a list of offsets, sorted as long as offsets are
/// inserted in increasing order.
pub struct InvertedIndex {
    slots: StringHashMap<usize>,
    postings: Vec<Posting>,
}

impl View for InvertedIndex {
    type V = Map<Seq<char>, Seq<u64>>;

    closed spec fn view(&self) -> Map<Seq<char>, Seq<u64>> {
        Map::new(
            |key: Seq<char>| self.slots@.contains_key(key),
            |key: Seq<char>| self.postings@[self.slots@[key] as int].offsets@,
        )
    }
}

/// The position of the first offset that is not below `min_offset`.
fn first_at_least(offsets: &Vec<u64>, min_offset: u64) -> (pos: usize)
    requires
        nondecreasing(offsets@),
    ensures
        pos <= offsets@.len(),
        forall|i: int| 0 <= i < pos ==> offsets@[i] < min_offset,
        forall|i: int| pos <= i < offsets@.len() ==> offsets@[i] >= min_offset,
{
    let mut lo: usize = 0;
    let mut hi: usize = offsets.len();
    while lo < hi
        invariant
            nondecreasing(offsets@),
            lo <= hi <= offsets@.len(),
            forall|i: int| 0 <= i < lo ==> offsets@[i] < min_offset,
            forall|i: int| hi <= i < offsets@.len() ==> offsets@[i] >= min_offset,
        decreases hi - lo,
    {
        let mid: usize = lo + (hi - lo) / 2;
        if offsets[mid] < min_offset {
            lo = mid + 1;
        } else {
            hi = mid;
        }
    }
    lo
}

/// What is kept of a sequence of which a prefix is rejected and the rest is
/// kept.
proof fn lemma_filter_suffix(offsets: Seq<u64>, min_offset: u64, pos: int)
    requires
        0 <= pos <= offsets.len(),
        forall|i: int| 0 <= i < pos ==> offsets[i] < min_offset,
        forall|i: int| pos <= i < offsets.len() ==> offsets[i] >= min_offset,
    ensures
        offsets.filter(at_least(min_offset)) == offsets.skip(pos),
    decreases offsets.len(),
{
    reveal(Seq::filter);
    if offsets.len() > 0 {
        if pos == offsets.len() {
            lemma_filter_suffix(offsets.drop_last(), min_offset, pos - 1);
        } else {
            lemma_filter_suffix(offsets.drop_last(), min_offset, pos);
            assert(offsets.drop_last().skip(pos).push(offsets.last()) =~= offsets.skip(pos));
        }
    }
    assert(offsets.filter(at_least(min_offset)) =~= offsets.skip(pos));
}

impl InvertedIndex {
    /// The key table and the posting list agree.
    pub closed spec fn wf(&self) -> bool {
        &&& forall|key: Seq<char>| #[trigger]
            self.slots@.contains_key(key) ==> self.slots@[key] < self.postings@.len()
                && self.postings@[self.slots@[key] as int].key@ == key
        &&& forall|i: int|
            0 <= i < self.postings@.len() ==> self.slots@.contains_key(
                (#[trigger] self.postings@[i]).key@,
            ) && self.slots@[self.postings@[i].key@] == i
    }

    /// Every key's offsets come in nondecreasing order.
    pub open spec fn sorted(&self) -> bool {
        forall|key: Seq<char>| #[trigger]
            self@.contains_key(key) ==> nondecreasing(self@[key])
    }

    pub fn new() -> (index: Self)
        ensures
            index.wf(),
            index@ == Map::<Seq<char>, Seq<u64>>::empty(),
    {
        let index = InvertedIndex { slots: StringHashMap::new(), postings: Vec::new() };
        assert(index@ =~= Map::<Seq<char>, Seq<u64>>::empty());
        index
    }

    /// Record that `global_offset` contains an entry with the given dimension `key`.
    pub fn insert(&mut self, key: &str, global_offset: u64)
        requires
            old(self).wf(),
        ensures
            final(self).wf(),
            final(self)@ == with_offset(old(self)@, key@, global_offset),
    {
        let slot: Option<usize> = match self.slots.get(key) {
            Some(i) => Some(*i),
            None => None,
        };
        match slot {
            Some(i) => {
                self.postings[i].offsets.push(global_offset);
            },
            None => {
                let i: usize = self.postings.len();
                let mut offsets: Vec<u64> = Vec::new();
                offsets.push(global_offset);
                assert(offsets@ =~= seq![global_offset]);
                self.postings.push(Posting { key: key.to_owned(), offsets });
                self.slots.insert(key.to_owned(), i);
            },
        }
        assert(self@ =~= with_offset(old(self)@, key@, global_offset));
    }

    /// Get all offsets for a given dimension key.
    pub fn get(&self, key: &str) -> (offsets: Option<&[u64]>)
        requires
            self.wf(),
        ensures
            match offsets {
                Some(list) => self@.contains_key(key@) && list@ == self@[key@],
                None => !self@.contains_key(key@),
            },
    {
        match self.slots.get(key) {
            Some(i) => Some(self.postings[*i].offsets.as_slice()),
            None => None,
        }
    }

    /// Drops the posting at position `i`; the last posting takes its place.
    fn remove_posting(&mut self, i: usize)
        requires
            old(self).wf(),
            i < old(self).postings@.len(),
        ensures
            final(self).wf(),
            final(self).postings@ == old(self).postings@.update(
                i as int,
                old(self).postings@.last(),
            ).drop_last(),
            final(self)@ == old(self)@.remove(old(self).postings@[i as int].key@),
    {
        let removed: Posting = self.postings.swap_remove(i);
        self.slots.remove(removed.key.as_str());
        if i < self.postings.len() {
            let moved: String = self.postings[i].key.clone();
            self.slots.insert(moved, i);
        }
        assert forall|key: Seq<char>| #[trigger]
            self.slots@.contains_key(key) implies self.slots@[key] < self.postings@.len()
            && self.postings@[self.slots@[key] as int].key@ == key by {
            assert(old(self).slots@.contains_key(key));
        }
        assert forall|j: int| 0 <= j < self.postings@.len() implies self.slots@.contains_key(
            (#[trigger] self.postings@[j]).key@,
        ) && self.slots@[self.postings@[j].key@] == j by {
            assert(self.postings@[j] == old(self).postings@[if j == i {
                old(self).postings@.len() - 1
            } else {
                j
            }]);
        }
        assert(self@ =~= old(self)@.remove(removed.key@)) by {
            assert forall|key: Seq<char>|
                old(self)@.contains_key(key) && key != removed.key@ implies self@.contains_key(key)
                && #[trigger] self@[key] == old(self)@[key] by {
                assert(old(self).slots@.contains_key(key));
            }
        }
    }

    /// Purge all offsets below `min_offset` (they've been evicted from the buffer).
    pub fn purge_below(&mut self, min_offset: u64)
        requires
            old(self).wf(),
            old(self).sorted(),
        ensures
            final(self).wf(),
            final(self)@ == purged(old(self)@, min_offset),
    {
        let ghost before = self@;
        let mut i: usize = 0;
        while i < self.postings.len()
            invariant
                self.wf(),
                old(self).sorted(),
                before == old(self)@,
                i <= self.postings@.len(),
                forall|key: Seq<char>| #[trigger]
                    self@.contains_key(key) ==> before.contains_key(key) && if self.slots@[key]
                        < i {
                        self@[key].len() > 0 && self@[key] == before[key].filter(
                            at_least(min_offset),
                        )
                    } else {
                        self@[key] == before[key]
                    },
                forall|key: Seq<char>| #[trigger]
                    before.contains_key(key) && !self@.contains_key(key) ==> before[key].filter(
                        at_least(min_offset),
                    ).len() == 0,
            decreases self.postings@.len() - i,
        {
            let ghost current = *self;
            let ghost key = self.postings@[i as int].key@;
            assert(self.slots@.contains_key(key) && self@.contains_key(key));
            assert(self@[key] == self.postings@[i as int].offsets@);
            let pos: usize = first_at_least(&self.postings[i].offsets, min_offset);
            proof {
                lemma_filter_suffix(before[key], min_offset, pos as int);
            }
            if pos == self.postings[i].offsets.len() {
                self.remove_posting(i);
                assert forall|k: Seq<char>| #[trigger]
                    self@.contains_key(k) implies before.contains_key(k) && if self.slots@[k] < i {
                    self@[k].len() > 0 && self@[k] == before[k].filter(at_least(min_offset))
                } else {
                    self@[k] == before[k]
                } by {
                    assert(current@.contains_key(k));
                    assert(self.postings@[self.slots@[k] as int].key@ == k);
                    let j = self.slots@[k] as int;
                    assert(self.postings@[j] == current.postings@[if j == i {
                        current.postings@.len() - 1
                    } else {
                        j
                    }]);
                }
            } else {
                if pos > 0 {
                    let kept: Vec<u64> = self.postings[i].offsets.split_off(pos);
                    assert(kept@ =~= before[key].skip(pos as int));
                    self.postings[i].offsets = kept;
                } else {
                    assert(before[key].skip(0) =~= before[key]);
                }
                assert forall|k: Seq<char>| #[trigger]
                    self@.contains_key(k) implies before.contains_key(k) && if self.slots@[k] < i
                    + 1 {
                    self@[k].len() > 0 && self@[k] == before[k].filter(at_least(min_offset))
                } else {
                    self@[k] == before[k]
                } by {
                    assert(current@.contains_key(k));
                    assert(self.postings@[self.slots@[k] as int].key@ == k);
                }
                assert forall|k: Seq<char>| #[trigger]
                    before.contains_key(k) && !self@.contains_key(k) implies before[k].filter(
                    at_least(min_offset),
                ).len() == 0 by {
                    assert(!current@.contains_key(k));
                }
                i += 1;
            }
        }
        assert(self@ =~= purged(before, min_offset)) by {
            assert forall|key: Seq<char>| #[trigger]
                self@.contains_key(key) implies self.slots@[key] < self.postings@.len() by {
                assert(self.slots@.contains_key(key));
            }
        }
    }
}

/// One more offset goes to the end of the list of its key, and no other list changes.
pub proof fn inserted_offset_is_listed_last(
    index: Map<Seq<char>, Seq<u64>>,
    key: Seq<char>,
    offset: u64,
    other: Seq<char>,
)
    ensures
        with_offset(index, key, offset).contains_key(key),
        with_offset(index, key, offset)[key].last() == offset,
        index.contains_key(key) ==> with_offset(index, key, offset)[key] == index[key].push(offset),
        !index.contains_key(key) ==> with_offset(index, key, offset)[key].len() == 1,
        other != key ==> with_offset(index, key, offset).contains_key(other) == index.contains_key(
            other,
        ),
        other != key && index.contains_key(other) ==> with_offset(index, key, offset)[other]
            == index[other],
{
}

/// Purging keeps the offsets from the bound on, in their order, and no others, and forgets
/// a key exactly if none of its offsets is left.
pub proof fn purging_keeps_what_is_not_below(
    index: Map<Seq<char>, Seq<u64>>,
    min_offset: u64,
    key: Seq<char>,
)
    ensures
        purged(index, min_offset).contains_key(key) <==> {
            &&& index.contains_key(key)
            &&& exists|i: int|
                0 <= i < index[key].len() && #[trigger] index[key][i] >= min_offset
        },
        purged(index, min_offset).contains_key(key) ==> purged(index, min_offset)[key]
            == index[key].filter(|offset: u64| offset >= min_offset),
{
    broadcast use vstd::seq_lib::group_filter_ensures;

    let p = |offset: u64| offset >= min_offset;
    assert(at_least(min_offset) =~= p);
    if index.contains_key(key) {
        let list = index[key];
        let kept = list.filter(p);
        if kept.len() > 0 {
            assert(kept.contains(kept[0]));
            list.lemma_filter_contains_rev(p, kept[0]);
            let i = choose|i: int| 0 <= i < list.len() && list[i] == kept[0];
            assert(p(kept[0]));
            assert(list[i] >= min_offset);
        }
        if exists|i: int| 0 <= i < list.len() && #[trigger] list[i] >= min_offset {
            let i = choose|i: int| 0 <= i < list.len() && #[trigger] list[i] >= min_offset;
            assert(p(list[i]));
            assert(kept.contains(list[i]));
        }
    }
}

} // verus!
