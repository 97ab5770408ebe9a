//! Content fingerprints: a fixed-width hash over file bytes, in a cheap
//! partial mode (a bounded prefix) and an expensive full mode (the whole
//! content). The caller reads the bytes; hashing itself is pure.

use vstd::prelude::*;
use std::collections::hash_map::DefaultHasher;
use std::hash::Hasher;
use vstd::std_specs::hash::DefaultHasherAdditionalSpecFns;

verus! {

/// Longest prefix, in bytes, that the partial fingerprint covers. A file no
/// longer than this is fully described by its partial fingerprint.
pub const PARTIAL_READ_LIMIT: u64 = 4096;

/// The fingerprint of a byte sequence: what the standard hasher returns
/// after a single write of the bytes.
pub open spec fn hash_of(bytes: Seq<u8>) -> u64 {
    DefaultHasher::spec_finish(seq![bytes])
}

/// The cheap fingerprint: over the whole content when it fits within
/// `PARTIAL_READ_LIMIT` bytes, over that prefix otherwise.
pub open spec fn partial_fingerprint(content: Seq<u8>) -> u64 {
    if content.len() <= PARTIAL_READ_LIMIT {
        hash_of(content)
    } else {
        hash_of(content.take(PARTIAL_READ_LIMIT as int))
    }
}

/// The definitive fingerprint, over the entire content.
pub open spec fn full_fingerprint(content: Seq<u8>) -> u64 {
    hash_of(content)
}

/// Hash a byte slice with the standard hasher.
pub fn hash_bytes(bytes: &[u8]) -> (r: u64)
    ensures
        r == hash_of(bytes@),
{
    let mut hasher = DefaultHasher::new();
    hasher.write(bytes);
    hasher.finish()
}

/// How many bytes of a file of the given length the partial fingerprint
/// covers: the caller need read no more than this before hashing.
pub fn partial_read_len(length: u64) -> (r: u64)
    ensures
        r == if length <= PARTIAL_READ_LIMIT {
            length
        } else {
            PARTIAL_READ_LIMIT
        },
{
    if length <= PARTIAL_READ_LIMIT {
        length
    } else {
        PARTIAL_READ_LIMIT
    }
}

/// Contents that agree on the prefix the partial fingerprint covers get the
/// same partial fingerprint, even when they differ afterwards: a partial
/// match alone never certifies equality beyond the prefix.
pub proof fn lemma_partial_fingerprint_prefix_only(c1: Seq<u8>, c2: Seq<u8>)
    requires
        c1.len() > PARTIAL_READ_LIMIT,
        c2.len() > PARTIAL_READ_LIMIT,
        c1.take(PARTIAL_READ_LIMIT as int) == c2.take(PARTIAL_READ_LIMIT as int),
    ensures
        partial_fingerprint(c1) == partial_fingerprint(c2),
{
}

/// Distinct full fingerprints witness distinct contents, so upgrading to
/// full fingerprints never splits true duplicates.
pub proof fn lemma_full_fingerprint_separates(c1: Seq<u8>, c2: Seq<u8>)
    requires
        full_fingerprint(c1) != full_fingerprint(c2),
    ensures
        c1 != c2,
{
}

} // verus!
