//! Summary figures.

use vstd::prelude::*;

verus! {

/// The position of a permille rank among `len` values.
pub open spec fn rank(len: nat, permille: nat) -> int {
    ((len - 1) * permille) / 1000
}

/// The value at a permille rank of sorted values, or 0 where there are none.
pub fn percentile(sorted: &[u64], permille: u16) -> (value: u64)
    requires
        sorted@.len() > 0 ==> {
            &&& (sorted@.len() - 1) * permille <= usize::MAX
            &&& rank(sorted@.len(), permille as nat) < sorted@.len()
        },
    ensures
        value == if sorted@.len() == 0 {
            0
        } else {
            sorted@[rank(sorted@.len(), permille as nat)]
        },
{
    if sorted.len() == 0 {
        return 0;
    }
    assert((sorted@.len() - 1) * permille >= 0) by (nonlinear_arith)
        requires
            sorted@.len() >= 1,
    ;
    let idx: usize = ((sorted.len() - 1) * permille as usize) / 1000;
    sorted[idx]
}

/// A rank of at most 1000 permille lies among the values.
pub proof fn rank_is_a_position(len: nat, permille: nat)
    requires
        len > 0,
        permille <= 1000,
    ensures
        0 <= rank(len, permille) < len,
{
    let product = (len - 1) * permille;
    assert(0 <= product <= (len - 1) * 1000) by (nonlinear_arith)
        requires
            product == (len - 1) * permille,
            len >= 1,
            0 <= permille <= 1000,
    ;
}

/// A higher rank has a value that is at least as large.
pub proof fn percentiles_are_ordered(sorted: Seq<u64>, low: nat, high: nat)
    requires
        sorted.len() > 0,
        forall|i: int, j: int| 0 <= i <= j < sorted.len() ==> sorted[i] <= sorted[j],
        low <= high <= 1000,
    ensures
        sorted[rank(sorted.len(), low)] <= sorted[rank(sorted.len(), high)],
{
    let len = sorted.len();
    rank_is_a_position(len, low);
    rank_is_a_position(len, high);
    let a = (len - 1) * low;
    let b = (len - 1) * high;
    assert(a <= b) by (nonlinear_arith)
        requires
            a == (len - 1) * low,
            b == (len - 1) * high,
            len >= 1,
            low <= high,
    ;
}

/// The position of a rank is its share of the way from the first value to the last,
/// rounded down: so the lowest rank is the first value, and the highest the last.
pub proof fn ranks_are_rounded_down(len: nat, permille: nat)
    requires
        len > 0,
    ensures
        rank(len, permille) * 1000 <= (len - 1) * permille < (rank(len, permille) + 1) * 1000,
        permille == 0 ==> rank(len, permille) == 0,
        permille == 1000 ==> rank(len, permille) == len - 1,
{
    let product = (len - 1) * permille;
    assert(permille == 0 ==> product == 0) by (nonlinear_arith)
        requires
            product == (len - 1) * permille,
    ;
    assert(permille == 1000 ==> product == (len - 1) * 1000);
}

} // verus!
