//! Deterministic key-to-shard routing.
//!
//! A key is routed by hashing its characters with the 64-bit FNV-1a hash —
//! a fixed, non-randomized, well-distributed hash — and reducing the hash
//! modulo the shard count. The routing is a pure function of the key's
//! characters and the shard count alone, so the same key always routes to
//! the same shard, across repeated calls and across processes.

use vstd::prelude::*;
use vstd::arithmetic::div_mod::lemma_mod_bound;
use vstd::string::StrSliceExecFns;

verus! {

/// The 64-bit FNV offset basis: the hash of the empty key.
pub const FNV_OFFSET_BASIS: u64 = 0xcbf29ce484222325;

/// The 64-bit FNV prime.
pub const FNV_PRIME: u64 = 0x100000001b3;

/// One FNV-1a step: fold one character into the hash accumulator.
pub open spec fn fnv1a_step(h: u64, c: char) -> u64 {
    vstd::wrapping::u64_specs::wrapping_mul(h ^ (c as u64), FNV_PRIME)
}

/// The 64-bit FNV-1a hash of a sequence of characters.
pub open spec fn fnv1a_hash(s: Seq<char>) -> u64
    decreases s.len(),
{
    if s.len() == 0 {
        FNV_OFFSET_BASIS
    } else {
        fnv1a_step(fnv1a_hash(s.drop_last()), s.last())
    }
}

/// The shard index that owns a key: its hash, reduced modulo the shard count.
pub open spec fn shard_index_of(key: Seq<char>, shard_count: int) -> int
    recommends
        shard_count >= 1,
{
    (fnv1a_hash(key) as int) % shard_count
}

/// A routed index always lies inside the shard sequence.
pub proof fn lemma_shard_index_in_range(key: Seq<char>, shard_count: int)
    requires
        shard_count >= 1,
    ensures
        0 <= shard_index_of(key, shard_count) < shard_count,
{
    lemma_mod_bound(fnv1a_hash(key) as int, shard_count);
}

/// Routing determinism: the shard index is a pure function of the key's
/// characters and the shard count alone, so two routings of equal keys
/// under the same shard count always agree, no matter when they are made.
pub proof fn lemma_routing_deterministic(k1: Seq<char>, k2: Seq<char>, shard_count: int)
    requires
        k1 == k2,
        shard_count >= 1,
    ensures
        shard_index_of(k1, shard_count) == shard_index_of(k2, shard_count),
{
}

/// Computes the 64-bit FNV-1a hash of a key's characters.
pub fn hash_key(key: &str) -> (h: u64)
    ensures
        h == fnv1a_hash(key@),
{
    let len: usize = key.unicode_len();
    let mut h: u64 = FNV_OFFSET_BASIS;
    let mut i: usize = 0;
    while i < len
        invariant
            len == key@.len(),
            i <= len,
            h == fnv1a_hash(key@.take(i as int)),
        decreases len - i,
    {
        let c = key.get_char(i);
        h = (h ^ (c as u64)).wrapping_mul(FNV_PRIME);
        proof {
            let prefix = key@.take(i + 1);
            assert(prefix.drop_last() =~= key@.take(i as int));
            assert(prefix.last() == key@[i as int]);
        }
        i = i + 1;
    }
    proof {
        assert(key@.take(len as int) =~= key@);
    }
    h
}

} // verus!
