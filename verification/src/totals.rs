//! Sums over sequences of numbers.

use vstd::prelude::*;

verus! {

pub open spec fn sum(values: Seq<nat>) -> nat
    decreases values.len(),
{
    if values.len() == 0 {
        0
    } else {
        sum(values.drop_last()) + values.last()
    }
}

pub proof fn lemma_sum_push(values: Seq<nat>, value: nat)
    ensures
        sum(values.push(value)) == sum(values) + value,
{
    assert(values.push(value).drop_last() =~= values);
}

pub proof fn lemma_sum_update(values: Seq<nat>, i: int, value: nat)
    requires
        0 <= i < values.len(),
    ensures
        sum(values.update(i, value)) == sum(values) - values[i] + value,
    decreases values.len(),
{
    let updated = values.update(i, value);
    if i == values.len() - 1 {
        assert(updated.drop_last() =~= values.drop_last());
    } else {
        assert(updated.drop_last() =~= values.drop_last().update(i, value));
        lemma_sum_update(values.drop_last(), i, value);
    }
}

pub proof fn lemma_sum_concat(a: Seq<nat>, b: Seq<nat>)
    ensures
        sum(a + b) == sum(a) + sum(b),
    decreases b.len(),
{
    if b.len() == 0 {
        assert(a + b =~= a);
    } else {
        assert((a + b).drop_last() =~= a + b.drop_last());
        lemma_sum_concat(a, b.drop_last());
    }
}

/// The sum is zero exactly when every value is.
pub proof fn lemma_sum_zero(values: Seq<nat>)
    ensures
        sum(values) == 0 <==> forall|i: int| 0 <= i < values.len() ==> #[trigger] values[i] == 0,
    decreases values.len(),
{
    if values.len() > 0 {
        let rest = values.drop_last();
        lemma_sum_zero(rest);
        if sum(values) == 0 {
            assert forall|i: int| 0 <= i < values.len() implies #[trigger] values[i] == 0 by {
                if i < rest.len() {
                    assert(rest[i] == 0);
                }
            }
        }
        if forall|i: int| 0 <= i < values.len() ==> #[trigger] values[i] == 0 {
            assert forall|i: int| 0 <= i < rest.len() implies #[trigger] rest[i] == 0 by {
                assert(values[i] == 0);
            }
        }
    }
}

/// No value is larger than the sum.
pub proof fn lemma_sum_bounds(values: Seq<nat>, i: int)
    requires
        0 <= i < values.len(),
    ensures
        values[i] <= sum(values),
    decreases values.len(),
{
    if i < values.len() - 1 {
        lemma_sum_bounds(values.drop_last(), i);
    }
}

/// The sum of a prefix is at most the sum of the whole.
pub proof fn lemma_sum_prefix(values: Seq<nat>, count: int)
    requires
        0 <= count <= values.len(),
    ensures
        sum(values.take(count)) <= sum(values),
    decreases values.len(),
{
    if count < values.len() {
        assert(values.drop_last().take(count) =~= values.take(count));
        lemma_sum_prefix(values.drop_last(), count);
    } else {
        assert(values.take(count) =~= values);
    }
}

pub proof fn lemma_sum_repeated(count: nat, value: nat)
    ensures
        sum(Seq::new(count, |i: int| value)) == count * value,
    decreases count,
{
    let values = Seq::new(count, |i: int| value);
    if count == 0 {
        assert(count * value == 0) by (nonlinear_arith)
            requires
                count == 0,
        ;
    } else {
        let fewer = (count - 1) as nat;
        lemma_sum_repeated(fewer, value);
        assert(values.drop_last() =~= Seq::new(fewer, |i: int| value));
        assert(fewer * value + value == count * value) by (nonlinear_arith)
            requires
                fewer + 1 == count,
        ;
    }
}

/// The sum does not depend on the order.
pub proof fn lemma_sum_permuted(a: Seq<nat>, b: Seq<nat>)
    requires
        a.to_multiset() == b.to_multiset(),
    ensures
        sum(a) == sum(b),
    decreases a.len(),
{
    broadcast use vstd::seq_lib::group_to_multiset_ensures;

    assert(a.len() == a.to_multiset().len());
    assert(b.len() == b.to_multiset().len());
    if a.len() > 0 {
        let last = a.len() - 1;
        let x = a[last];
        assert(a.contains(x));
        assert(b.to_multiset().count(x) > 0);
        assert(b.contains(x));
        let j = choose|j: int| 0 <= j < b.len() && b[j] == x;
        assert(a.remove(last).to_multiset() == b.remove(j).to_multiset());
        lemma_sum_permuted(a.remove(last), b.remove(j));
        assert(a.remove(last) =~= a.drop_last());
        let before = b.take(j);
        let after = b.skip(j + 1);
        assert(b.remove(j) =~= before + after);
        assert(b =~= before.push(x) + after);
        lemma_sum_concat(before, after);
        lemma_sum_concat(before.push(x), after);
        lemma_sum_push(before, x);
    }
}

} // verus!
