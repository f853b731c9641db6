//! A stable merge sort over items that carry an integer key.

use vstd::prelude::*;

verus! {

broadcast use vstd::seq_lib::group_to_multiset_ensures;

/// An item that is ordered by an integer key.
pub trait Keyed: Sized {
    spec fn sort_key(&self) -> int;

    fn key(&self) -> (k: i64)
        ensures
            k as int == self.sort_key(),
    ;
}

/// The items come in nondecreasing key order.
pub open spec fn sorted_by_key<T: Keyed>(items: Seq<T>) -> bool {
    forall|i: int, j: int|
        #![trigger items[i], items[j]]
        0 <= i <= j < items.len() ==> items[i].sort_key() <= items[j].sort_key()
}

/// Whether an item has key `k`.
pub open spec fn key_is<T: Keyed>(k: int) -> spec_fn(T) -> bool {
    |x: T| x.sort_key() == k
}

/// The items with key `k`, in their order.
pub open spec fn with_key<T: Keyed>(items: Seq<T>, k: int) -> Seq<T> {
    items.filter(key_is(k))
}

/// `sorted` holds the items of `items` in nondecreasing key order, and items
/// with equal keys in the order in which `items` has them. There is exactly one
/// such sequence.
pub open spec fn is_stable_sort<T: Keyed>(items: Seq<T>, sorted: Seq<T>) -> bool {
    &&& sorted_by_key(sorted)
    &&& forall|k: int| #[trigger] with_key(sorted, k) == with_key(items, k)
}

proof fn lemma_with_key_concat<T: Keyed>(a: Seq<T>, b: Seq<T>, k: int)
    ensures
        with_key(a + b, k) == with_key(a, k) + with_key(b, k),
{
    Seq::filter_distributes_over_add(a, b, key_is(k));
}

proof fn lemma_with_key_one<T: Keyed>(x: T, k: int)
    ensures
        with_key(seq![x], k) == if x.sort_key() == k {
            seq![x]
        } else {
            Seq::empty()
        },
{
    reveal(Seq::filter);
    let s = seq![x];
    assert(s.drop_last() =~= Seq::<T>::empty());
    assert(with_key(s.drop_last(), k) =~= Seq::<T>::empty());
    assert(s.last() == x);
    assert(with_key(s, k) =~= if x.sort_key() == k {
        with_key(s.drop_last(), k).push(x)
    } else {
        with_key(s.drop_last(), k)
    });
}

proof fn lemma_with_key_absent<T: Keyed>(s: Seq<T>, k: int)
    requires
        forall|i: int| 0 <= i < s.len() ==> (#[trigger] s[i]).sort_key() != k,
    ensures
        with_key(s, k) == Seq::<T>::empty(),
    decreases s.len(),
{
    reveal(Seq::filter);
    if s.len() > 0 {
        lemma_with_key_absent(s.drop_last(), k);
    }
    assert(with_key(s, k) =~= Seq::<T>::empty());
}

/// Moving the last item of a sequence to the front of what follows it changes
/// nothing about the items of any key.
proof fn lemma_move_last<T: Keyed>(s: Seq<T>, tail: Seq<T>, k: int)
    requires
        s.len() > 0,
    ensures
        with_key(s, k) + with_key(tail, k) == with_key(s.drop_last(), k) + with_key(
            seq![s.last()] + tail,
            k,
        ),
{
    lemma_with_key_concat(s.drop_last(), seq![s.last()], k);
    assert(s.drop_last() + seq![s.last()] =~= s);
    lemma_with_key_concat(seq![s.last()], tail, k);
    assert(with_key(s.drop_last(), k) + with_key(seq![s.last()], k) + with_key(tail, k)
        =~= with_key(s.drop_last(), k) + (with_key(seq![s.last()], k) + with_key(tail, k)));
}

proof fn lemma_multiset_move_last<T>(s: Seq<T>, tail: Seq<T>)
    requires
        s.len() > 0,
    ensures
        s.to_multiset().add(tail.to_multiset()) == s.drop_last().to_multiset().add(
            (seq![s.last()] + tail).to_multiset(),
        ),
{
    vstd::seq_lib::lemma_multiset_commutative(s.drop_last(), seq![s.last()]);
    assert(s.drop_last() + seq![s.last()] =~= s);
    vstd::seq_lib::lemma_multiset_commutative(seq![s.last()], tail);
    assert(s.to_multiset().add(tail.to_multiset()) =~= s.drop_last().to_multiset().add(
        (seq![s.last()] + tail).to_multiset(),
    ));
}

/// Empties `items` from its end.
fn reversed<T>(mut items: Vec<T>) -> (out: Vec<T>)
    ensures
        out@ == items@.reverse(),
{
    let ghost all = items@;
    let mut out: Vec<T> = Vec::with_capacity(items.len());
    while items.len() > 0
        invariant
            items@.len() + out@.len() == all.len(),
            items@ == all.take(items@.len() as int),
            forall|i: int| 0 <= i < out@.len() ==> out@[i] == all[all.len() - 1 - i],
        decreases items.len(),
    {
        match items.pop() {
            Some(x) => {
                out.push(x);
            },
            None => {},
        }
        assert(items@ =~= all.take(items@.len() as int));
    }
    assert(out@ =~= all.reverse());
    out
}

/// Merges two sorted vectors, items of `left` before items of `right` that have
/// the same key.
fn merge<T: Keyed>(mut left: Vec<T>, mut right: Vec<T>) -> (merged: Vec<T>)
    requires
        sorted_by_key(left@),
        sorted_by_key(right@),
    ensures
        is_stable_sort(left@ + right@, merged@),
        merged@.to_multiset() == (left@ + right@).to_multiset(),
{
    let ghost l0 = left@;
    let ghost r0 = right@;
    let mut taken: Vec<T> = Vec::with_capacity(left.len());
    let ghost mut tail: Seq<T> = Seq::empty();
    proof {
        assert forall|k: int|
            with_key(l0, k) + with_key(r0, k) == #[trigger] with_key(l0, k) + with_key(r0, k)
                + with_key(tail, k) by {
            reveal(Seq::filter);
            assert(with_key(tail, k) =~= Seq::<T>::empty());
            assert(with_key(l0, k) + with_key(r0, k) =~= with_key(l0, k) + with_key(r0, k)
                + with_key(tail, k));
        }
        assert(l0.to_multiset().add(r0.to_multiset()) =~= l0.to_multiset().add(
            r0.to_multiset(),
        ).add(tail.to_multiset()));
    }
    while left.len() > 0 || right.len() > 0
        invariant
            sorted_by_key(left@),
            sorted_by_key(right@),
            tail == taken@.reverse(),
            sorted_by_key(tail),
            forall|i: int, j: int|
                0 <= i < left@.len() && 0 <= j < tail.len() ==> (#[trigger] left@[i]).sort_key()
                    <= (#[trigger] tail[j]).sort_key(),
            forall|i: int, j: int|
                0 <= i < right@.len() && 0 <= j < tail.len() ==> (#[trigger] right@[i]).sort_key()
                    <= (#[trigger] tail[j]).sort_key(),
            forall|k: int|
                with_key(l0, k) + with_key(r0, k) == #[trigger] with_key(left@, k) + with_key(
                    right@,
                    k,
                ) + with_key(tail, k),
            l0.to_multiset().add(r0.to_multiset()) == left@.to_multiset().add(
                right@.to_multiset(),
            ).add(tail.to_multiset()),
        decreases left.len() + right.len(),
    {
        let from_right: bool = if right.len() == 0 {
            false
        } else if left.len() == 0 {
            true
        } else {
            right[right.len() - 1].key() >= left[left.len() - 1].key()
        };
        let ghost l1 = left@;
        let ghost r1 = right@;
        let ghost t1 = tail;
        let next: Option<T> = if from_right {
            right.pop()
        } else {
            left.pop()
        };
        match next {
            Some(x) => {
                taken.push(x);
                proof {
                    tail = seq![x] + tail;
                    assert(tail =~= taken@.reverse());
                    if from_right {
                        assert(right@ =~= r1.drop_last());
                        lemma_multiset_move_last(r1, t1);
                        assert(l1.to_multiset().add(r1.to_multiset()).add(t1.to_multiset())
                            =~= l1.to_multiset().add(r1.to_multiset().add(t1.to_multiset())));
                        assert(left@ == l1);
                        assert(left@.to_multiset().add(right@.to_multiset()).add(
                            tail.to_multiset(),
                        ) =~= left@.to_multiset().add(
                            right@.to_multiset().add(tail.to_multiset()),
                        ));
                        assert forall|k: int|
                            with_key(l0, k) + with_key(r0, k) == #[trigger] with_key(left@, k)
                                + with_key(right@, k) + with_key(tail, k) by {
                            lemma_move_last(r1, t1, k);
                            assert(with_key(l1, k) + with_key(r1, k) + with_key(t1, k) =~= with_key(
                                l1,
                                k,
                            ) + (with_key(r1, k) + with_key(t1, k)));
                            assert(with_key(left@, k) + with_key(right@, k) + with_key(tail, k)
                                =~= with_key(left@, k) + (with_key(right@, k) + with_key(tail, k)));
                        }
                    } else {
                        assert(left@ =~= l1.drop_last());
                        lemma_multiset_move_last(l1, t1);
                        assert(l1.to_multiset().add(r1.to_multiset()).add(t1.to_multiset())
                            =~= r1.to_multiset().add(l1.to_multiset().add(t1.to_multiset())));
                        assert(left@.to_multiset().add(right@.to_multiset()).add(
                            tail.to_multiset(),
                        ) =~= right@.to_multiset().add(
                            left@.to_multiset().add(tail.to_multiset()),
                        ));
                        assert(right@ == r1);
                        assert forall|k: int|
                            with_key(l0, k) + with_key(r0, k) == #[trigger] with_key(left@, k)
                                + with_key(right@, k) + with_key(tail, k) by {
                            lemma_move_last(l1, t1, k);
                            lemma_with_key_concat(seq![x], t1, k);
                            lemma_with_key_concat(l1.drop_last(), seq![x], k);
                            assert(l1.drop_last() + seq![x] =~= l1);
                            lemma_with_key_one(x, k);
                            if x.sort_key() == k {
                                lemma_with_key_absent(r1, k);
                                assert(with_key(l1, k) + with_key(r1, k) + with_key(t1, k)
                                    =~= with_key(l1, k) + with_key(t1, k));
                                assert(with_key(left@, k) + with_key(right@, k) + with_key(tail, k)
                                    =~= with_key(left@, k) + with_key(tail, k));
                            } else {
                                assert(with_key(l1, k) =~= with_key(left@, k));
                                assert(with_key(tail, k) =~= with_key(t1, k));
                            }
                        }
                    }
                }
            },
            None => {},
        }
    }
    let merged: Vec<T> = reversed(taken);
    proof {
        vstd::seq_lib::lemma_multiset_commutative(l0, r0);
        assert(merged@.to_multiset() =~= (l0 + r0).to_multiset());
        assert forall|k: int| #[trigger] with_key(merged@, k) == with_key(l0 + r0, k) by {
            lemma_with_key_concat(l0, r0, k);
            reveal(Seq::filter);
            assert(with_key(left@, k) =~= Seq::<T>::empty());
            assert(with_key(right@, k) =~= Seq::<T>::empty());
            assert(with_key(left@, k) + with_key(right@, k) + with_key(tail, k) =~= with_key(
                tail,
                k,
            ));
        }
    }
    merged
}

/// Sorts `items` by key; items with equal keys keep their relative order.
pub fn stable_sort<T: Keyed>(items: Vec<T>) -> (sorted: Vec<T>)
    ensures
        is_stable_sort(items@, sorted@),
        sorted@.to_multiset() == items@.to_multiset(),
    decreases items.len(),
{
    if items.len() <= 1 {
        return items;
    }
    let mid: usize = items.len() / 2;
    let ghost all = items@;
    let mut left: Vec<T> = items;
    let right: Vec<T> = left.split_off(mid);
    let ghost l0 = left@;
    let ghost r0 = right@;
    let left: Vec<T> = stable_sort(left);
    let right: Vec<T> = stable_sort(right);
    let sorted: Vec<T> = merge(left, right);
    proof {
        assert(l0 + r0 =~= all);
        vstd::seq_lib::lemma_multiset_commutative(l0, r0);
        vstd::seq_lib::lemma_multiset_commutative(left@, right@);
        assert forall|k: int| #[trigger] with_key(sorted@, k) == with_key(all, k) by {
            lemma_with_key_concat(l0, r0, k);
            lemma_with_key_concat(left@, right@, k);
        }
    }
    sorted
}

/// The last item ends the list of the items with its key, and leaves all other such
/// lists alone.
proof fn lemma_with_key_last<T: Keyed>(items: Seq<T>, k: int)
    requires
        items.len() > 0,
    ensures
        items.last().sort_key() == k ==> with_key(items, k) == with_key(items.drop_last(), k).push(
            items.last(),
        ),
        items.last().sort_key() != k ==> with_key(items, k) == with_key(items.drop_last(), k),
{
    reveal(Seq::filter);
}

proof fn lemma_with_key_present<T: Keyed>(items: Seq<T>, k: int)
    requires
        with_key(items, k).len() > 0,
    ensures
        exists|i: int| 0 <= i < items.len() && (#[trigger] items[i]).sort_key() == k,
{
    if forall|i: int| 0 <= i < items.len() ==> (#[trigger] items[i]).sort_key() != k {
        lemma_with_key_absent(items, k);
    }
}

/// A sequence has one stable order only.
pub proof fn stable_order_is_unique<T: Keyed>(items: Seq<T>, a: Seq<T>, b: Seq<T>)
    requires
        is_stable_sort(items, a),
        is_stable_sort(items, b),
    ensures
        a == b,
{
    lemma_same_order(a, b);
}

proof fn lemma_same_order<T: Keyed>(a: Seq<T>, b: Seq<T>)
    requires
        sorted_by_key(a),
        sorted_by_key(b),
        forall|k: int| #[trigger] with_key(a, k) == with_key(b, k),
    ensures
        a == b,
    decreases a.len(),
{
    if a.len() == 0 {
        if b.len() > 0 {
            let k = b.last().sort_key();
            lemma_with_key_last(b, k);
            assert(with_key(a, k).len() > 0);
            lemma_with_key_present(a, k);
        }
        assert(a =~= b);
    } else {
        let x = a.last();
        lemma_with_key_last(a, x.sort_key());
        assert(with_key(b, x.sort_key()).len() > 0);
        lemma_with_key_present(b, x.sort_key());
        let y = b.last();
        lemma_with_key_last(b, y.sort_key());
        assert(with_key(a, y.sort_key()).len() > 0);
        lemma_with_key_present(a, y.sort_key());
        assert(x.sort_key() == y.sort_key()) by {
            let i = choose|i: int|
                0 <= i < b.len() && (#[trigger] b[i]).sort_key() == x.sort_key();
            let j = choose|j: int|
                0 <= j < a.len() && (#[trigger] a[j]).sort_key() == y.sort_key();
            assert(b[i].sort_key() <= b[b.len() - 1].sort_key());
            assert(a[j].sort_key() <= a[a.len() - 1].sort_key());
        }
        let all = with_key(a, x.sort_key());
        assert(all.last() == x);
        assert(all.last() == y);
        let ra = a.drop_last();
        let rb = b.drop_last();
        assert forall|k: int| #[trigger] with_key(ra, k) == with_key(rb, k) by {
            lemma_with_key_last(a, k);
            lemma_with_key_last(b, k);
            assert(with_key(a, k) == with_key(b, k));
            if k == x.sort_key() {
                assert(with_key(ra, k).push(x).drop_last() =~= with_key(ra, k));
                assert(with_key(rb, k).push(x).drop_last() =~= with_key(rb, k));
            }
        }
        assert forall|i: int, j: int|
            #![trigger ra[i], ra[j]]
            0 <= i <= j < ra.len() implies ra[i].sort_key() <= ra[j].sort_key() by {
            assert(a[i].sort_key() <= a[j].sort_key());
        }
        assert forall|i: int, j: int|
            #![trigger rb[i], rb[j]]
            0 <= i <= j < rb.len() implies rb[i].sort_key() <= rb[j].sort_key() by {
            assert(b[i].sort_key() <= b[j].sort_key());
        }
        lemma_same_order(ra, rb);
        assert(a =~= ra.push(x));
        assert(b =~= rb.push(y));
    }
}

/// Mapping two permutations of each other gives permutations of each other.
pub proof fn lemma_map_multiset<A, B>(a: Seq<A>, b: Seq<A>, f: spec_fn(A) -> B)
    requires
        a.to_multiset() == b.to_multiset(),
    ensures
        a.map_values(f).to_multiset() == b.map_values(f).to_multiset(),
    decreases a.len(),
{
    assert(a.len() == a.to_multiset().len());
    assert(b.len() == b.to_multiset().len());
    if a.len() == 0 {
        assert(a =~= b);
    } else {
        let last = a.len() - 1;
        let x = a[last];
        assert(a.contains(x));
        assert(b.to_multiset().count(x) > 0);
        assert(b.contains(x));
        let j = choose|j: int| 0 <= j < b.len() && b[j] == x;
        assert(a.remove(last).to_multiset() == b.remove(j).to_multiset());
        lemma_map_multiset(a.remove(last), b.remove(j), f);
        let ma = a.map_values(f);
        let mb = b.map_values(f);
        assert(ma.remove(last) =~= a.remove(last).map_values(f));
        assert(mb.remove(j) =~= b.remove(j).map_values(f));
        assert(ma.contains(ma[last]));
        assert(mb.contains(mb[j]));
        assert(ma.to_multiset() =~= ma.remove(last).to_multiset().insert(f(x)));
        assert(mb.to_multiset() =~= mb.remove(j).to_multiset().insert(f(x)));
    }
}

/// Filtering and mapping commute where the conditions agree.
pub proof fn lemma_map_filter<A, B>(
    items: Seq<A>,
    f: spec_fn(A) -> B,
    p: spec_fn(A) -> bool,
    q: spec_fn(B) -> bool,
)
    requires
        forall|x: A| #[trigger] p(x) == q(f(x)),
    ensures
        items.map_values(f).filter(q) == items.filter(p).map_values(f),
    decreases items.len(),
{
    reveal(Seq::filter);
    if items.len() == 0 {
        assert(items.map_values(f).filter(q) =~= items.filter(p).map_values(f));
    } else {
        let rest = items.drop_last();
        lemma_map_filter(rest, f, p, q);
        assert(items.map_values(f).drop_last() =~= rest.map_values(f));
        assert(p(items.last()) == q(f(items.last())));
        if p(items.last()) {
            assert(rest.filter(p).push(items.last()).map_values(f) =~= rest.filter(p).map_values(
                f,
            ).push(f(items.last())));
        }
    }
}

/// Where no member satisfies a condition, filtering leaves nothing.
pub proof fn lemma_filter_none<A>(items: Seq<A>, p: spec_fn(A) -> bool)
    requires
        forall|k: int| 0 <= k < items.len() ==> !p(#[trigger] items[k]),
    ensures
        items.filter(p) == Seq::<A>::empty(),
    decreases items.len(),
{
    reveal(Seq::filter);
    if items.len() > 0 {
        let rest = items.drop_last();
        assert forall|k: int| 0 <= k < rest.len() implies !p(#[trigger] rest[k]) by {
            assert(rest[k] == items[k]);
        }
        lemma_filter_none(rest, p);
        assert(!p(items[items.len() - 1]));
    }
}

/// A stable order is ascending by key, and has the items with each key in the order in
/// which they came.
pub proof fn stable_orders_ascend<T: Keyed>(items: Seq<T>, sorted: Seq<T>, k: int)
    requires
        is_stable_sort(items, sorted),
    ensures
        forall|i: int, j: int|
            0 <= i <= j < sorted.len() ==> (#[trigger] sorted[i]).sort_key() <= (
            #[trigger] sorted[j]).sort_key(),
        sorted.filter(|x: T| x.sort_key() == k) == items.filter(|x: T| x.sort_key() == k),
{
    let p = |x: T| x.sort_key() == k;
    assert(key_is::<T>(k) =~= p);
    assert(with_key(sorted, k) == with_key(items, k));
}

} // verus!
