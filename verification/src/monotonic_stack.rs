//! Eviction order of time windows: the causal horizon.

use crate::sorting::{
    is_stable_sort, key_is, lemma_map_filter, stable_order_is_unique, stable_orders_ascend,
    stable_sort, with_key, Keyed,
};
use vstd::prelude::*;

verus! {

/// Eviction order encoded by the causal horizon.
///
/// The stack holds time-window keys with their keep scores, ordered by key. The
/// horizon lies at the peak score: the window there and everything newer is
/// protected, and only windows left of it may be evicted. A score is an integer
/// that stands for the rank of a window's importance.
///
/// ```text
/// score               peak (horizon)
///  ^                      |
///  |                  ####|
///  |              ########|####
///  |          ############|########
///  +----------------------|--------> time
///    evictable <----------+------> protected
/// ```
pub struct MonotonicStack {
    entries: Vec<(i64, i64)>,
}

impl Keyed for (i64, i64) {
    open spec fn sort_key(&self) -> int {
        self.0 as int
    }

    fn key(&self) -> (k: i64) {
        self.0
    }
}

/// A window that may be evicted, ordered by its score.
#[derive(Clone, Copy)]
pub struct Candidate {
    pub window_key: i64,
    pub score: i64,
}

impl Keyed for Candidate {
    open spec fn sort_key(&self) -> int {
        self.score as int
    }

    fn key(&self) -> (k: i64) {
        self.score
    }
}

/// No window has a higher score than the one at `i`, and none after it one as high.
pub open spec fn is_peak(entries: Seq<(i64, i64)>, i: int) -> bool {
    &&& 0 <= i < entries.len()
    &&& forall|j: int| 0 <= j < entries.len() ==> (#[trigger] entries[j]).1 <= entries[i].1
    &&& forall|j: int| i < j < entries.len() ==> (#[trigger] entries[j]).1 < entries[i].1
}

/// The position of the peak, the last one where several windows have the highest
/// score.
pub open spec fn peak(entries: Seq<(i64, i64)>) -> int {
    choose|i: int| is_peak(entries, i)
}

/// The windows left of a key, in their order.
pub open spec fn left_of(entries: Seq<(i64, i64)>, horizon: i64) -> Seq<Candidate>
    decreases entries.len(),
{
    if entries.len() == 0 {
        Seq::empty()
    } else {
        let rest = left_of(entries.drop_last(), horizon);
        let (window_key, score) = entries.last();
        if window_key < horizon {
            rest.push(Candidate { window_key, score })
        } else {
            rest
        }
    }
}

/// The keys of a sequence of windows.
pub open spec fn keys_of(candidates: Seq<Candidate>) -> Seq<i64> {
    candidates.map_values(|c: Candidate| c.window_key)
}

/// The keys are those of the windows left of the horizon, in ascending order of
/// their scores, windows with equal scores in the order of the stack.
pub open spec fn is_eviction_order(entries: Seq<(i64, i64)>, keys: Seq<i64>) -> bool {
    if entries.len() == 0 {
        keys.len() == 0
    } else {
        exists|order: Seq<Candidate>|
            #![trigger is_stable_sort(left_of(entries, entries[peak(entries)].0), order)]
            is_stable_sort(left_of(entries, entries[peak(entries)].0), order) && keys == keys_of(
                order,
            )
    }
}

pub proof fn lemma_peak(entries: Seq<(i64, i64)>)
    requires
        entries.len() > 0,
    ensures
        is_peak(entries, peak(entries)),
        forall|i: int| #[trigger] is_peak(entries, i) ==> i == peak(entries),
    decreases entries.len(),
{
    let last = entries.len() - 1;
    if entries.len() == 1 {
        assert(is_peak(entries, 0));
    } else {
        let rest = entries.drop_last();
        lemma_peak(rest);
        let best = peak(rest);
        assert forall|j: int| 0 <= j < rest.len() implies (#[trigger] entries[j]).1
            <= entries[best].1 by {
            assert(rest[j].1 <= rest[best].1);
        }
        if entries[last].1 >= entries[best].1 {
            assert(is_peak(entries, last));
        } else {
            assert forall|j: int| best < j < entries.len() implies (#[trigger] entries[j]).1
                < entries[best].1 by {
                if j < last {
                    assert(rest[j].1 < rest[best].1);
                }
            }
            assert(is_peak(entries, best));
        }
    }
}

impl View for MonotonicStack {
    type V = Seq<(i64, i64)>;

    closed spec fn view(&self) -> Seq<(i64, i64)> {
        self.entries@
    }
}

impl MonotonicStack {
    pub fn new() -> (stack: Self)
        ensures
            stack@ == Seq::<(i64, i64)>::empty(),
    {
        MonotonicStack { entries: Vec::new() }
    }

    /// Replaces the stack by the given windows, ordered by key.
    pub fn rebuild(&mut self, windows: Vec<(i64, i64)>)
        ensures
            is_stable_sort(windows@, final(self)@),
            final(self)@.to_multiset() == windows@.to_multiset(),
    {
        self.entries = stable_sort(windows);
    }

    /// The position of the peak.
    fn find_peak(&self) -> (at: usize)
        requires
            self@.len() > 0,
        ensures
            at == peak(self@),
            at < self@.len(),
    {
        let mut best: usize = 0;
        let mut i: usize = 1;
        while i < self.entries.len()
            invariant
                1 <= i <= self.entries@.len(),
                is_peak(self.entries@.take(i as int), best as int),
            decreases self.entries@.len() - i,
        {
            let ghost seen = self.entries@.take(i as int);
            let ghost more = self.entries@.take(i + 1);
            assert forall|j: int| 0 <= j < i implies more[j] == seen[j] by {}
            if self.entries[i].1 >= self.entries[best].1 {
                best = i;
            }
            assert(is_peak(more, best as int));
            i += 1;
        }
        proof {
            assert(self.entries@.take(i as int) =~= self.entries@);
            lemma_peak(self.entries@);
        }
        best
    }

    /// The causal horizon: the key of the window with the highest score, the last
    /// one where there are several. It and everything right of it is protected.
    pub fn horizon(&self) -> (key: Option<i64>)
        ensures
            key == if self@.len() == 0 {
                None
            } else {
                Some(self@[peak(self@)].0)
            },
    {
        if self.entries.len() == 0 {
            return None;
        }
        let at: usize = self.find_peak();
        Some(self.entries[at].0)
    }

    /// The windows that may be evicted: all left of the horizon, lowest score
    /// first.
    pub fn evictable(&self) -> (keys: Vec<i64>)
        ensures
            is_eviction_order(self@, keys@),
    {
        let horizon: i64 = match self.horizon() {
            Some(h) => h,
            None => return Vec::new(),
        };
        let mut candidates: Vec<Candidate> = Vec::new();
        let mut i: usize = 0;
        while i < self.entries.len()
            invariant
                i <= self.entries@.len(),
                candidates@ == left_of(self.entries@.take(i as int), horizon),
            decreases self.entries@.len() - i,
        {
            assert(self.entries@.take(i + 1).drop_last() =~= self.entries@.take(i as int));
            let (window_key, score): (i64, i64) = self.entries[i];
            if window_key < horizon {
                candidates.push(Candidate { window_key, score });
            }
            i += 1;
        }
        assert(self.entries@.take(i as int) =~= self.entries@);
        let order: Vec<Candidate> = stable_sort(candidates);
        let mut keys: Vec<i64> = Vec::with_capacity(order.len());
        let mut j: usize = 0;
        while j < order.len()
            invariant
                j <= order@.len(),
                keys@ =~= keys_of(order@).take(j as int),
            decreases order@.len() - j,
        {
            keys.push(order[j].window_key);
            j += 1;
        }
        assert(keys@ =~= keys_of(order@));
        keys
    }

    /// The number of windows in the stack.
    pub fn len(&self) -> (len: usize)
        ensures
            len == self@.len(),
    {
        self.entries.len()
    }

    pub fn is_empty(&self) -> (empty: bool)
        ensures
            empty == (self@.len() == 0),
    {
        self.entries.len() == 0
    }
}

proof fn lemma_left_of(entries: Seq<(i64, i64)>, horizon: i64, k: int)
    requires
        0 <= k < left_of(entries, horizon).len(),
    ensures
        left_of(entries, horizon)[k].window_key < horizon,
        exists|i: int|
            0 <= i < entries.len() && (#[trigger] entries[i]).0 == left_of(
                entries,
                horizon,
            )[k].window_key,
    decreases entries.len(),
{
    let rest = left_of(entries.drop_last(), horizon);
    if k < rest.len() {
        lemma_left_of(entries.drop_last(), horizon, k);
        let i = choose|i: int|
            0 <= i < entries.drop_last().len() && (#[trigger] entries.drop_last()[i]).0
                == rest[k].window_key;
        assert(entries[i].0 == rest[k].window_key);
    } else {
        assert(entries[entries.len() - 1].0 == left_of(entries, horizon)[k].window_key);
    }
}

/// Every window that may be evicted is in the stack.
pub proof fn lemma_key_in_stack(entries: Seq<(i64, i64)>, keys: Seq<i64>, k: int)
    requires
        is_eviction_order(entries, keys),
        0 <= k < keys.len(),
    ensures
        exists|i: int| 0 <= i < entries.len() && (#[trigger] entries[i]).0 == keys[k],
{
    let horizon = entries[peak(entries)].0;
    let candidates = left_of(entries, horizon);
    let order = choose|order: Seq<Candidate>|
        #![trigger is_stable_sort(left_of(entries, entries[peak(entries)].0), order)]
        is_stable_sort(left_of(entries, entries[peak(entries)].0), order) && keys == keys_of(order);
    lemma_member(candidates, order, k);
    let m = choose|m: int| 0 <= m < candidates.len() && candidates[m] == order[k];
    lemma_left_of(entries, horizon, m);
}

/// Every item of the sorted sequence is one of the items.
pub proof fn lemma_member<T: Keyed>(items: Seq<T>, sorted: Seq<T>, k: int)
    requires
        is_stable_sort(items, sorted),
        0 <= k < sorted.len(),
    ensures
        items.contains(sorted[k]),
{
    broadcast use vstd::seq_lib::group_filter_ensures;

    let x = sorted[k];
    let key = x.sort_key();
    assert(with_key(sorted, key) == with_key(items, key));
    assert(key_is::<T>(key)(x));
    assert(sorted.filter(key_is(key)).contains(x));
    assert(items.filter(key_is(key)).contains(x));
    items.lemma_filter_contains_rev(key_is(key), x);
}

/// Every item is somewhere in the sorted sequence.
proof fn lemma_sorted_contains<T: Keyed>(items: Seq<T>, sorted: Seq<T>, k: int)
    requires
        is_stable_sort(items, sorted),
        0 <= k < items.len(),
    ensures
        sorted.contains(items[k]),
{
    broadcast use vstd::seq_lib::group_filter_ensures;

    let x = items[k];
    let key = x.sort_key();
    assert(with_key(sorted, key) == with_key(items, key));
    assert(key_is::<T>(key)(x));
    assert(items.filter(key_is(key)).contains(x));
    assert(sorted.filter(key_is(key)).contains(x));
    sorted.lemma_filter_contains_rev(key_is(key), x);
}

proof fn lemma_left_of_complete(entries: Seq<(i64, i64)>, horizon: i64, i: int)
    requires
        0 <= i < entries.len(),
        entries[i].0 < horizon,
    ensures
        left_of(entries, horizon).contains(
            Candidate { window_key: entries[i].0, score: entries[i].1 },
        ),
    decreases entries.len(),
{
    let all = left_of(entries, horizon);
    let rest = entries.drop_last();
    let wanted = Candidate { window_key: entries[i].0, score: entries[i].1 };
    if i < rest.len() {
        assert(rest[i] == entries[i]);
        lemma_left_of_complete(rest, horizon, i);
        let before = left_of(rest, horizon);
        let k = choose|k: int| 0 <= k < before.len() && before[k] == wanted;
        assert(all[k] == wanted);
    } else {
        assert(all[all.len() - 1] == wanted);
    }
}

/// Everything left of the horizon may be evicted.
pub proof fn left_of_horizon_is_evictable(entries: Seq<(i64, i64)>, keys: Seq<i64>, i: int)
    requires
        is_eviction_order(entries, keys),
        0 <= i < entries.len(),
        entries[i].0 < entries[peak(entries)].0,
    ensures
        keys.contains(entries[i].0),
{
    let horizon = entries[peak(entries)].0;
    let candidates = left_of(entries, horizon);
    let order = choose|order: Seq<Candidate>|
        #![trigger is_stable_sort(left_of(entries, entries[peak(entries)].0), order)]
        is_stable_sort(left_of(entries, entries[peak(entries)].0), order) && keys == keys_of(order);
    let wanted = Candidate { window_key: entries[i].0, score: entries[i].1 };
    lemma_left_of_complete(entries, horizon, i);
    let k = choose|k: int| 0 <= k < candidates.len() && candidates[k] == wanted;
    lemma_sorted_contains(candidates, order, k);
    let m = choose|m: int| 0 <= m < order.len() && order[m] == wanted;
    assert(keys[m] == entries[i].0);
}

/// Nothing at or behind the horizon is ever evicted.
pub proof fn horizon_is_protected(entries: Seq<(i64, i64)>, keys: Seq<i64>)
    requires
        is_eviction_order(entries, keys),
    ensures
        forall|k: int| 0 <= k < keys.len() ==> #[trigger] keys[k] < entries[peak(entries)].0,
{
    if entries.len() > 0 {
        let horizon = entries[peak(entries)].0;
        let candidates = left_of(entries, horizon);
        let order = choose|order: Seq<Candidate>|
            #![trigger is_stable_sort(left_of(entries, entries[peak(entries)].0), order)]
            is_stable_sort(left_of(entries, entries[peak(entries)].0), order) && keys == keys_of(
                order,
            );
        assert forall|k: int| 0 <= k < keys.len() implies #[trigger] keys[k] < horizon by {
            lemma_member(candidates, order, k);
            let m = choose|m: int| 0 <= m < candidates.len() && candidates[m] == order[k];
            lemma_left_of(entries, horizon, m);
        }
    }
}

/// The eviction order is determined by the stack.
pub proof fn eviction_order_is_unique(entries: Seq<(i64, i64)>, a: Seq<i64>, b: Seq<i64>)
    requires
        is_eviction_order(entries, a),
        is_eviction_order(entries, b),
    ensures
        a == b,
{
    if entries.len() > 0 {
        let candidates = left_of(entries, entries[peak(entries)].0);
        let first = choose|order: Seq<Candidate>|
            #![trigger is_stable_sort(left_of(entries, entries[peak(entries)].0), order)]
            is_stable_sort(left_of(entries, entries[peak(entries)].0), order) && a == keys_of(
                order,
            );
        let second = choose|order: Seq<Candidate>|
            #![trigger is_stable_sort(left_of(entries, entries[peak(entries)].0), order)]
            is_stable_sort(left_of(entries, entries[peak(entries)].0), order) && b == keys_of(
                order,
            );
        stable_order_is_unique(candidates, first, second);
    } else {
        assert(a =~= b);
    }
}

/// The horizon lies at the highest score, at the last window that has it.
pub proof fn horizon_is_the_last_highest(entries: Seq<(i64, i64)>)
    requires
        entries.len() > 0,
    ensures
        0 <= peak(entries) < entries.len(),
        forall|j: int|
            0 <= j < entries.len() ==> (#[trigger] entries[j]).1 <= entries[peak(entries)].1,
        forall|j: int|
            peak(entries) < j < entries.len() ==> (#[trigger] entries[j]).1
                < entries[peak(entries)].1,
{
    lemma_peak(entries);
}

/// The stack is rebuilt in the order of the keys, windows with the same key in the order in
/// which they were given.
pub proof fn stack_is_ordered_by_key(windows: Seq<(i64, i64)>, stack: Seq<(i64, i64)>, key: i64)
    requires
        is_stable_sort(windows, stack),
    ensures
        forall|i: int, j: int|
            0 <= i <= j < stack.len() ==> (#[trigger] stack[i]).0 <= (#[trigger] stack[j]).0,
        stack.filter(|e: (i64, i64)| e.0 == key) == windows.filter(|e: (i64, i64)| e.0 == key),
{
    stable_orders_ascend(windows, stack, key as int);
    let p = |e: (i64, i64)| e.0 == key;
    let q = |e: (i64, i64)| e.sort_key() == key as int;
    assert(p =~= q);
    assert forall|i: int, j: int| 0 <= i <= j < stack.len() implies (#[trigger] stack[i]).0 <= (
    #[trigger] stack[j]).0 by {
        assert(stack[i].sort_key() <= stack[j].sort_key());
    }
}

proof fn lemma_left_of_filter(entries: Seq<(i64, i64)>, horizon: i64)
    ensures
        left_of(entries, horizon).map_values(|c: Candidate| (c.window_key, c.score))
            == entries.filter(|e: (i64, i64)| e.0 < horizon),
    decreases entries.len(),
{
    reveal(Seq::filter);
    let f = |c: Candidate| (c.window_key, c.score);
    if entries.len() > 0 {
        let rest = entries.drop_last();
        lemma_left_of_filter(rest, horizon);
        let (window_key, score) = entries.last();
        let before = left_of(rest, horizon);
        if window_key < horizon {
            assert(before.push(Candidate { window_key, score }).map_values(f) =~= before.map_values(
                f,
            ).push((window_key, score)));
        }
    } else {
        assert(left_of(entries, horizon).map_values(f) =~= Seq::empty());
    }
}

/// The windows that may be evicted are all those left of the horizon, each with its score,
/// and no others: those with the lowest scores come first, and those with equal scores in
/// the order of the stack.
pub proof fn lowest_scores_go_first(
    entries: Seq<(i64, i64)>,
    keys: Seq<i64>,
    score: i64,
) -> (order: Seq<(i64, i64)>)
    requires
        entries.len() > 0,
        is_eviction_order(entries, keys),
    ensures
        keys == order.map_values(|e: (i64, i64)| e.0),
        forall|i: int, j: int|
            0 <= i <= j < order.len() ==> (#[trigger] order[i]).1 <= (#[trigger] order[j]).1,
        order.filter(|e: (i64, i64)| e.1 == score) == entries.filter(
            |e: (i64, i64)| e.0 < entries[peak(entries)].0,
        ).filter(|e: (i64, i64)| e.1 == score),
{
    let horizon = entries[peak(entries)].0;
    let candidates = left_of(entries, horizon);
    let sorted = choose|order: Seq<Candidate>|
        #![trigger is_stable_sort(left_of(entries, entries[peak(entries)].0), order)]
        is_stable_sort(left_of(entries, entries[peak(entries)].0), order) && keys == keys_of(order);
    let f = |c: Candidate| (c.window_key, c.score);
    let order = sorted.map_values(f);
    stable_orders_ascend(candidates, sorted, score as int);
    lemma_left_of_filter(entries, horizon);
    let p = |c: Candidate| c.sort_key() == score as int;
    let q = |e: (i64, i64)| e.1 == score;
    assert(keys =~= order.map_values(|e: (i64, i64)| e.0));
    assert forall|i: int, j: int| 0 <= i <= j < order.len() implies (#[trigger] order[i]).1 <= (
    #[trigger] order[j]).1 by {
        assert(sorted[i].sort_key() <= sorted[j].sort_key());
    }
    assert forall|c: Candidate| #[trigger] p(c) == q(f(c)) by {}
    lemma_map_filter(sorted, f, p, q);
    lemma_map_filter(candidates, f, p, q);
    order
}

/// Without windows nothing may be evicted.
pub proof fn empty_stack_evicts_nothing(entries: Seq<(i64, i64)>, keys: Seq<i64>)
    requires
        entries.len() == 0,
    ensures
        is_eviction_order(entries, keys) <==> keys.len() == 0,
{
}

} // verus!
