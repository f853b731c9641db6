//! Which partition a host belongs to.

use std::collections::hash_map::DefaultHasher;
use std::hash::{Hash, Hasher};
use vstd::prelude::*;
use vstd::std_specs::hash::DefaultHasherAdditionalSpecFns;

verus! {

/// The byte strings that hashing a string hands to a `DefaultHasher`, in order.
pub uninterp spec fn str_hash_writes(text: Seq<char>) -> Seq<Seq<u8>>;

/// `<str as Hash>::hash` on a `DefaultHasher`: it adds to the hasher's writes a
/// list that depends on the characters of the string alone.
#[verifier::external_body]
fn hash_str(text: &str, hasher: &mut DefaultHasher)
    ensures
        final(hasher)@ == old(hasher)@ + str_hash_writes(text@),
{
    text.hash(hasher)
}

/// The 64-bit hash of a string under a fresh `DefaultHasher`.
pub open spec fn host_hash(host: Seq<char>) -> u64 {
    DefaultHasher::spec_finish(str_hash_writes(host))
}

/// The partition that a hash value selects among `num_partitions`.
pub open spec fn partition_of_hash(hash: u64, num_partitions: nat) -> nat {
    if num_partitions <= 1 {
        0
    } else {
        (hash as usize) as nat % num_partitions
    }
}

/// The partition that owns a host.
pub open spec fn partition_of(host: Seq<char>, num_partitions: nat) -> nat {
    partition_of_hash(host_hash(host), num_partitions)
}

/// The partition that a hash value selects.
pub fn partition_for_hash(hash: u64, num_partitions: usize) -> (partition: usize)
    ensures
        partition == partition_of_hash(hash, num_partitions as nat),
        num_partitions > 0 ==> partition < num_partitions,
{
    if num_partitions <= 1 {
        return 0;
    }
    (hash as usize) % num_partitions
}

/// Deterministic routing from a host to its partition, shared by producers and
/// the store: both must agree on which partition owns a host.
pub fn partition_for_host(host_id: &str, num_partitions: usize) -> (partition: usize)
    ensures
        partition == partition_of(host_id@, num_partitions as nat),
        num_partitions > 0 ==> partition < num_partitions,
{
    if num_partitions <= 1 {
        return 0;
    }
    let mut hasher = DefaultHasher::new();
    hash_str(host_id, &mut hasher);
    assert(hasher@ =~= str_hash_writes(host_id@));
    partition_for_hash(hasher.finish(), num_partitions)
}

/// A host's partition is one of the partitions.
pub proof fn partition_in_range(host: Seq<char>, num_partitions: nat)
    requires
        num_partitions > 0,
    ensures
        partition_of(host, num_partitions) < num_partitions,
{
}

/// A hash value selects a partition by its remainder; without partitions there is only
/// the first.
pub proof fn remainders_select_partitions(hash: u64, num_partitions: nat)
    ensures
        num_partitions > 0 ==> partition_of_hash(hash, num_partitions) < num_partitions,
        num_partitions > 0 ==> (hash as usize - partition_of_hash(hash, num_partitions)) % (
        num_partitions as int) == 0,
        num_partitions == 0 ==> partition_of_hash(hash, num_partitions) == 0,
{
    if num_partitions > 0 {
        let h = hash as usize as int;
        let n = num_partitions as int;
        vstd::arithmetic::div_mod::lemma_fundamental_div_mod(h, n);
        let q = h / n;
        vstd::arithmetic::div_mod::lemma_mod_multiples_basic(q, n);
        assert(q * n == n * q) by (nonlinear_arith);
    }
}

/// Among several partitions the hash of the host decides alone, by its remainder: hosts
/// share a partition exactly where their hashes differ by a multiple of the number of
/// partitions. A single partition owns every host.
pub proof fn hashes_select_partitions(host: Seq<char>, num_partitions: nat)
    requires
        num_partitions > 0,
    ensures
        partition_of(host, num_partitions) < num_partitions,
        ({
            let hash = DefaultHasher::spec_finish(str_hash_writes(host)) as usize;
            (hash - partition_of(host, num_partitions)) % (num_partitions as int) == 0
        }),
{
    remainders_select_partitions(host_hash(host), num_partitions);
}

} // verus!
