//! Time windows: fixed-width buckets of time, by which queries are tracked and
//! old entries are evicted.

use std::collections::HashSet;
use vstd::std_specs::iter::IteratorSpec;
use vstd::prelude::*;

verus! {

broadcast use vstd::std_specs::hash::group_hash_axioms;

/// The start of the window of a timestamp: the last multiple of the window size that
/// is not after it.
pub open spec fn window_start(timestamp: int, size: int) -> int {
    timestamp - timestamp % size
}

/// The timestamp by which a window is known: its start, or the lowest timestamp for
/// the window that starts before that.
pub open spec fn window_name(start: int) -> i64 {
    if start < i64::MIN {
        i64::MIN
    } else {
        start as i64
    }
}

/// The first timestamp behind the window that is known by `key`.
pub open spec fn window_end(key: int, size: int) -> int {
    if key == i64::MIN {
        window_start(key, size) + size
    } else {
        key + size
    }
}

/// The names of the windows from that of `t1` to that of `t2`.
pub open spec fn windows_between(t1: int, t2: int, size: int) -> Seq<i64> {
    let first = window_start(t1, size);
    let last = window_start(t2, size);
    if first <= last {
        Seq::new(((last - first) / size + 1) as nat, |i: int| window_name(first + i * size))
    } else {
        Seq::empty()
    }
}

/// The windows of a range can be walked through: there are none, or the step behind the
/// last one stays within the timestamps.
pub open spec fn walkable(t1: int, t2: int, size: int) -> bool {
    &&& size > 0
    &&& window_start(t1, size) <= window_start(t2, size) ==> window_start(t2, size) + size
        <= i64::MAX
}

/// Windows are fixed-width buckets: every timestamp belongs to exactly one, that which
/// starts at or before it and ends after it.
pub proof fn every_timestamp_has_one_window(timestamp: int, size: int, key: int)
    requires
        size > 0,
    ensures
        window_start(timestamp, size) % size == 0,
        window_start(timestamp, size) <= timestamp < window_start(timestamp, size) + size,
        key % size == 0 && key <= timestamp < key + size ==> key == window_start(timestamp, size),
{
    vstd::arithmetic::div_mod::lemma_fundamental_div_mod(timestamp, size);
    vstd::arithmetic::div_mod::lemma_mod_bound(timestamp, size);
    let q = timestamp / size;
    let start = window_start(timestamp, size);
    assert(start == q * size) by (nonlinear_arith)
        requires
            timestamp == size * q + timestamp % size,
            start == timestamp - timestamp % size,
    ;
    vstd::arithmetic::div_mod::lemma_mod_multiples_basic(q, size);
    if key % size == 0 && key <= timestamp < key + size {
        vstd::arithmetic::div_mod::lemma_fundamental_div_mod(key, size);
        let k = key / size;
        assert(timestamp == k * size + (timestamp - key)) by (nonlinear_arith)
            requires
                key == size * k,
        ;
        vstd::arithmetic::div_mod::lemma_fundamental_div_mod_converse(
            timestamp,
            size,
            k,
            timestamp - key,
        );
    }
}

/// The windows that have been touched. Each is known by its start.
pub struct WindowMetadataMap {
    window_size: i64,
    windows: HashSet<i64>,
}

impl View for WindowMetadataMap {
    type V = Set<i64>;

    closed spec fn view(&self) -> Set<i64> {
        self.windows@
    }
}

impl WindowMetadataMap {
    pub closed spec fn size(&self) -> i64 {
        self.window_size
    }

    pub fn new(window_size: i64) -> (map: Self)
        ensures
            map@ == Set::<i64>::empty(),
            map.size() == window_size,
    {
        WindowMetadataMap { window_size, windows: HashSet::new() }
    }

    pub fn window_size(&self) -> (size: i64)
        ensures
            size == self.size(),
    {
        self.window_size
    }

    /// The multiple of the window size next to a timestamp in the direction of zero.
    fn multiple_toward_zero(&self, timestamp: i64) -> (multiple: i64)
        requires
            self.size() > 0,
        ensures
            multiple as int % self.size() as int == 0,
            timestamp >= 0 ==> multiple <= timestamp < multiple + self.size(),
            timestamp < 0 ==> multiple - self.size() < timestamp <= multiple <= 0,
    {
        let quotient: i64 = timestamp / self.window_size;
        proof {
            let size = self.window_size as int;
            let t = timestamp as int;
            let m = if t >= 0 {
                t
            } else {
                -t
            };
            let q = m / size;
            let signed = quotient as int;
            let multiple = quotient * size;
            vstd::arithmetic::div_mod::lemma_fundamental_div_mod(m, size);
            vstd::arithmetic::div_mod::lemma_mod_bound(m, size);
            assert(multiple == if t >= 0 {
                size * q
            } else {
                -(size * q)
            }) by (nonlinear_arith)
                requires
                    multiple == signed * size,
                    t >= 0 ==> signed == q,
                    t < 0 ==> signed == -q,
            ;
            assert(0 <= size * q) by (nonlinear_arith)
                requires
                    size > 0,
                    q >= 0,
            ;
            vstd::arithmetic::div_mod::lemma_mod_multiples_basic(signed, size);
        }
        quotient * self.window_size
    }

    /// The window that a timestamp belongs to.
    pub fn window_key(&self, timestamp: i64) -> (key: i64)
        requires
            self.size() > 0,
        ensures
            key == window_name(window_start(timestamp as int, self.size() as int)),
            key <= timestamp < window_end(key as int, self.size() as int),
            timestamp >= i64::MIN + self.size() ==> key as int % self.size() as int == 0
                && timestamp < key + self.size(),
    {
        let multiple: i64 = self.multiple_toward_zero(timestamp);
        let ghost size = self.window_size as int;
        let ghost t = timestamp as int;
        proof {
            every_timestamp_has_one_window(t, size, multiple as int);
            every_timestamp_has_one_window(t, size, multiple - size);
            every_timestamp_has_one_window(i64::MIN as int, size, window_start(t, size));
            vstd::arithmetic::div_mod::lemma_mod_sub_multiples_vanish(multiple as int, size);
        }
        if multiple <= timestamp {
            multiple
        } else if multiple < i64::MIN + self.window_size {
            i64::MIN
        } else {
            multiple - self.window_size
        }
    }

    /// The first timestamp behind a window.
    pub fn window_end(&self, key: i64) -> (end: i64)
        requires
            self.size() > 0,
            key + self.size() <= i64::MAX,
        ensures
            end == window_end(key as int, self.size() as int),
    {
        if key > i64::MIN {
            return key + self.window_size;
        }
        let multiple: i64 = self.multiple_toward_zero(key);
        proof {
            let size = self.window_size as int;
            every_timestamp_has_one_window(key as int, size, multiple as int);
            every_timestamp_has_one_window(key as int, size, multiple - size);
            vstd::arithmetic::div_mod::lemma_mod_sub_multiples_vanish(multiple as int, size);
        }
        if multiple > key {
            multiple
        } else {
            key + self.window_size
        }
    }

    /// The windows that a range of timestamps touches.
    pub fn windows_in(&self, t1: i64, t2: i64) -> (keys: Vec<i64>)
        requires
            walkable(t1 as int, t2 as int, self.size() as int),
        ensures
            keys@ == windows_between(t1 as int, t2 as int, self.size() as int),
    {
        let start_window: i64 = self.window_key(t1);
        let ghost size = self.window_size as int;
        let ghost first = window_start(t1 as int, size);
        let ghost last = window_start(t2 as int, size);
        let mut keys: Vec<i64> = Vec::new();
        proof {
            every_timestamp_has_one_window(t1 as int, size, 0);
            every_timestamp_has_one_window(t2 as int, size, 0);
        }
        if start_window > t2 {
            assert(keys@ =~= windows_between(t1 as int, t2 as int, size));
            return keys;
        }
        let ghost count = (last - first) / size + 1;
        proof {
            lemma_starts_before(first, t2 as int, size);
            lemma_steps(first, last, size);
        }
        let mut w: i64 = start_window;
        while w <= t2
            invariant
                size == self.window_size,
                size > 0,
                first % size == 0,
                first > i64::MIN - size,
                last <= t2 < last + size,
                last + size <= i64::MAX,
                last == first + (count - 1) * size,
                0 <= keys@.len() <= count,
                first + keys@.len() * size <= last + size,
                w == window_name(first + keys@.len() * size),
                keys@ =~= Seq::new(keys@.len(), |i: int| window_name(first + i * size)),
            decreases count - keys@.len(),
        {
            let ghost done = keys@.len() as int;
            let ghost at = first + done * size;
            proof {
                assert(done < count) by (nonlinear_arith)
                    requires
                        first + done * size <= t2,
                        t2 < first + (count - 1) * size + size,
                        size > 0,
                ;
                assert(done * size + size == (done + 1) * size) by (nonlinear_arith);
                assert(done > 0 ==> done * size >= size) by (nonlinear_arith)
                    requires
                        done >= 0,
                        size > 0,
                ;
                assert(at <= last) by (nonlinear_arith)
                    requires
                        at == first + done * size,
                        last == first + (count - 1) * size,
                        done <= count - 1,
                        size > 0,
                ;
                vstd::arithmetic::div_mod::lemma_mod_multiples_vanish(done, first, size);
                assert(at == size * done + first) by (nonlinear_arith)
                    requires
                        at == first + done * size,
                ;
                every_timestamp_has_one_window(i64::MIN as int, size, at);
            }
            keys.push(w);
            w = self.window_end(w);
        }
        proof {
            let done = keys@.len() as int;
            assert(done == count) by (nonlinear_arith)
                requires
                    first + done * size > t2,
                    t2 >= first + (count - 1) * size,
                    done <= count,
                    size > 0,
            ;
            assert(keys@ =~= windows_between(t1 as int, t2 as int, size));
        }
        keys
    }

    /// Records that a query touched a range of timestamps, and returns the windows
    /// that it touched.
    pub fn record_query(&mut self, t1: i64, t2: i64) -> (touched: Vec<i64>)
        requires
            walkable(t1 as int, t2 as int, old(self).size() as int),
        ensures
            touched@ == windows_between(t1 as int, t2 as int, old(self).size() as int),
            final(self)@ == old(self)@.union(touched@.to_set()),
            final(self).size() == old(self).size(),
    {
        let touched: Vec<i64> = self.windows_in(t1, t2);
        let mut i: usize = 0;
        assert(self@ =~= old(self)@.union(touched@.take(0).to_set()));
        while i < touched.len()
            invariant
                i <= touched@.len(),
                self@ == old(self)@.union(touched@.take(i as int).to_set()),
                self.window_size == old(self).window_size,
            decreases touched@.len() - i,
        {
            let key: i64 = touched[i];
            let _ = self.windows.insert(key);
            proof {
                let more = touched@.take(i + 1);
                assert(more =~= touched@.take(i as int).push(key));
                assert forall|k: i64| more.to_set().contains(k) <==> (k == key
                    || touched@.take(i as int).to_set().contains(k)) by {
                    if touched@.take(i as int).contains(k) {
                        let j = choose|j: int|
                            0 <= j < i && touched@.take(i as int)[j] == k;
                        assert(more[j] == k);
                    }
                    assert(more[i as int] == key);
                }
                assert(self@ =~= old(self)@.union(more.to_set()));
            }
            i += 1;
        }
        assert(touched@.take(i as int) =~= touched@);
        touched
    }

    /// Records that the window of a timestamp got a signal, and returns the window.
    pub fn set_algo_signal(&mut self, timestamp: i64) -> (key: i64)
        requires
            old(self).size() > 0,
        ensures
            key == window_name(window_start(timestamp as int, old(self).size() as int)),
            final(self)@ == old(self)@.insert(key),
            final(self).size() == old(self).size(),
    {
        let key: i64 = self.window_key(timestamp);
        let _ = self.windows.insert(key);
        key
    }

    /// Forgets a window that has been evicted.
    pub fn remove_window(&mut self, window_key: i64)
        ensures
            final(self)@ == old(self)@.remove(window_key),
            final(self).size() == old(self).size(),
    {
        let _ = self.windows.remove(&window_key);
    }

    /// The windows that have been touched, each once, in any order.
    pub fn keys(&self) -> (keys: Vec<i64>)
        ensures
            keys@.to_set() == self@,
            keys@.no_duplicates(),
    {
        let mut keys: Vec<i64> = Vec::new();
        let ghost all = self.windows.iter().remaining();
        for key in it: self.windows.iter()
            invariant
                it.seq() == all,
                keys@ =~= all.unref().take(it.index() as int),
        {
            keys.push(*key);
        }
        proof {
            assert(keys@ =~= all.unref());
            assert(all.unref().to_set() == self@);
            assert(all.no_duplicates());
        }
        keys
    }

    /// Whether a window has been touched.
    pub fn contains(&self, window_key: i64) -> (known: bool)
        ensures
            known == self@.contains(window_key),
    {
        self.windows.contains(&window_key)
    }
}

/// A window that starts at or before a timestamp starts at or before that of the
/// timestamp.
proof fn lemma_starts_before(start: int, timestamp: int, size: int)
    requires
        size > 0,
        start % size == 0,
        start <= timestamp,
    ensures
        start <= window_start(timestamp, size),
{
    every_timestamp_has_one_window(timestamp, size, 0);
    vstd::arithmetic::div_mod::lemma_fundamental_div_mod(start, size);
    vstd::arithmetic::div_mod::lemma_fundamental_div_mod(timestamp, size);
    let a = start / size;
    let b = timestamp / size;
    let left = timestamp % size;
    assert(size * a <= size * b) by (nonlinear_arith)
        requires
            size * a <= size * b + left,
            0 <= left < size,
    ;
}

/// The distance between two multiples of a size is a whole number of steps.
proof fn lemma_steps(first: int, last: int, size: int)
    requires
        size > 0,
        first <= last,
        first % size == 0,
        last % size == 0,
    ensures
        last == first + ((last - first) / size) * size,
        (last - first) / size >= 0,
{
    vstd::arithmetic::div_mod::lemma_fundamental_div_mod(first, size);
    vstd::arithmetic::div_mod::lemma_fundamental_div_mod(last, size);
    let a = first / size;
    let b = last / size;
    assert(last - first == (b - a) * size) by (nonlinear_arith)
        requires
            first == size * a,
            last == size * b,
    ;
    assert(b - a >= 0) by (nonlinear_arith)
        requires
            (b - a) * size >= 0,
            size > 0,
    ;
    vstd::arithmetic::div_mod::lemma_div_by_multiple(b - a, size);
}

/// A window ends one window size behind its start. The one that starts before the lowest
/// timestamp ends at the first multiple of the window size behind that.
pub proof fn windows_end_at_multiples(key: i64, size: int, end: int)
    requires
        size > 0,
        key > i64::MIN ==> end == key + size,
        key == i64::MIN ==> key < end <= key + size && end % size == 0,
    ensures
        window_end(key as int, size) == end,
{
    if key == i64::MIN {
        vstd::arithmetic::div_mod::lemma_mod_sub_multiples_vanish(end, size);
        every_timestamp_has_one_window(key as int, size, end - size);
    }
}

/// A timestamp lies in its window, and so does every timestamp from the window's name up to
/// its end, and no other: all of them have the same window.
pub proof fn windows_hold_their_timestamps(timestamp: i64, other: i64, size: int)
    requires
        size > 0,
    ensures
        ({
            let key = window_name(window_start(timestamp as int, size));
            &&& key <= timestamp < window_end(key as int, size)
            &&& key <= other < window_end(key as int, size) <==> window_name(
                window_start(other as int, size),
            ) == key
        }),
{
    let t = timestamp as int;
    let o = other as int;
    let start = window_start(t, size);
    let low = i64::MIN as int;
    every_timestamp_has_one_window(t, size, 0);
    every_timestamp_has_one_window(o, size, start);
    every_timestamp_has_one_window(t, size, window_start(o, size));
    every_timestamp_has_one_window(low, size, start);
    every_timestamp_has_one_window(low, size, window_start(o, size));
}

/// A window is known by its start, as long as that is a timestamp.
pub proof fn windows_are_known_by_their_start(start: i64, below: int)
    requires
        below < i64::MIN,
    ensures
        window_name(start as int) == start,
        window_name(below) == i64::MIN,
{
}

/// The windows of a range are those of its timestamps: that of every timestamp in it is
/// among them.
pub proof fn every_timestamp_is_covered(t1: i64, t2: i64, timestamp: i64, size: int)
    requires
        size > 0,
        t1 <= timestamp <= t2,
    ensures
        windows_between(t1 as int, t2 as int, size).contains(
            window_name(window_start(timestamp as int, size)),
        ),
{
    let first = window_start(t1 as int, size);
    let last = window_start(t2 as int, size);
    let start = window_start(timestamp as int, size);
    every_timestamp_has_one_window(t1 as int, size, 0);
    every_timestamp_has_one_window(t2 as int, size, 0);
    every_timestamp_has_one_window(timestamp as int, size, 0);
    lemma_starts_before(first, timestamp as int, size);
    lemma_starts_before(start, t2 as int, size);
    lemma_steps(first, start, size);
    lemma_steps(first, last, size);
    let k = (start - first) / size;
    let n = (last - first) / size;
    assert(k <= n) by (nonlinear_arith)
        requires
            k * size <= n * size,
            size > 0,
    ;
    assert(windows_between(t1 as int, t2 as int, size)[k] == window_name(start));
}

/// No other window is among them: each is that of a timestamp in the range. They come in
/// ascending order, each once.
pub proof fn covered_windows_have_a_timestamp(t1: i64, t2: i64, size: int, k: int) -> (timestamp:
    i64)
    requires
        size > 0,
        t1 <= t2,
        0 <= k < windows_between(t1 as int, t2 as int, size).len(),
    ensures
        t1 <= timestamp <= t2,
        windows_between(t1 as int, t2 as int, size)[k] == window_name(
            window_start(timestamp as int, size),
        ),
        k > 0 ==> windows_between(t1 as int, t2 as int, size)[k - 1] < windows_between(
            t1 as int,
            t2 as int,
            size,
        )[k],
{
    let first = window_start(t1 as int, size);
    let last = window_start(t2 as int, size);
    every_timestamp_has_one_window(t1 as int, size, 0);
    every_timestamp_has_one_window(t2 as int, size, 0);
    if first > last {
        lemma_starts_before(first, t2 as int, size);
    }
    lemma_steps(first, last, size);
    let n = (last - first) / size;
    let start = first + k * size;
    assert(0 <= k * size <= n * size) by (nonlinear_arith)
        requires
            0 <= k <= n,
            size > 0,
    ;
    assert((k - 1) * size == k * size - size) by (nonlinear_arith);
    vstd::arithmetic::div_mod::lemma_mod_multiples_vanish(k, first, size);
    assert(size * k + first == start) by (nonlinear_arith)
        requires
            start == first + k * size,
    ;
    if k == 0 {
        assert(k * size == 0);
        t1
    } else {
        assert(k * size >= size) by (nonlinear_arith)
            requires
                k >= 1,
                size > 0,
        ;
        every_timestamp_has_one_window(start, size, start);
        start as i64
    }
}

/// A range whose end has room for another window behind it can be walked through, and so
/// can one that ends a whole window before it begins.
pub proof fn most_ranges_are_walkable(t1: int, t2: int, size: int)
    requires
        size > 0,
    ensures
        t2 + size <= i64::MAX ==> walkable(t1, t2, size),
        t2 + size <= t1 ==> walkable(t1, t2, size),
        walkable(t1, t2, size) && t1 <= t2 ==> window_start(t2, size) + size <= i64::MAX,
{
    every_timestamp_has_one_window(t1, size, 0);
    every_timestamp_has_one_window(t2, size, 0);
    if t1 <= t2 {
        lemma_starts_before(window_start(t1, size), t2, size);
    }
}

} // verus!
