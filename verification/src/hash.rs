//! Bucket-index computation.
//!
//! A key is hashed by feeding its UTF-8 bytes to std's `DefaultHasher`, a
//! deterministic, non-cryptographic hash; the bucket index is the 64-bit
//! digest reduced modulo the bucket count. The same key therefore always
//! lands in the same bucket within one process run, which is all the table
//! relies on; the index is not stable across runs and is never persisted.

use vstd::prelude::*;

verus! {

use std::collections::hash_map::DefaultHasher;
use std::hash::Hasher;
use vstd::std_specs::hash::DefaultHasherAdditionalSpecFns;
use vstd::utf8::encode_utf8;

/// Number of collision buckets in every table, fixed for its lifetime.
pub const BUCKET_COUNT: usize = 16;

/// The bucket that a key with the given characters belongs to.
pub closed spec fn bucket_index_of(k: Seq<char>) -> int {
    DefaultHasher::spec_finish(seq![encode_utf8(k)]) as int % (BUCKET_COUNT as int)
}

/// Every key belongs to exactly one of the `BUCKET_COUNT` buckets.
pub proof fn lemma_bucket_index_of_in_range(k: Seq<char>)
    ensures
        0 <= bucket_index_of(k) < BUCKET_COUNT as int,
{
}

/// Computes the bucket index of a key: hash the key's bytes, then reduce the
/// digest modulo the bucket count.
pub(crate) fn bucket_index(key: &String) -> (r: usize)
    ensures
        r as int == bucket_index_of(key@),
{
    let mut hasher = DefaultHasher::new();
    hasher.write(key.as_str().as_bytes());
    let digest: u64 = hasher.finish();
    proof {
        assert(hasher@ =~= seq![encode_utf8(key@)]);
    }
    (digest % (BUCKET_COUNT as u64)) as usize
}

} // verus!
