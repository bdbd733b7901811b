//! Blake2-256 hashes, by which trie nodes are addressed.

use parity_scale_codec::Encode;
use sp_core::{Blake2Hasher, H256};
use sp_trie::LayoutV0;
use trie_db::{NodeCodec, TrieLayout};
use vstd::prelude::*;

verus! {

/// A Blake2-256 hash.
pub type HashBytes = [u8; 32];

/// The Blake2-256 hash of `data`, as `Blake2Hasher::hash` computes it.
pub uninterp spec fn blake2_256(data: Seq<u8>) -> Seq<u8>;

/// Reads a hash out of a slice of its length.
pub fn as_hash(slice: &[u8]) -> (hash: HashBytes)
    requires
        slice@.len() == 32,
    ensures
        hash@ == slice@,
{
    let mut hash: HashBytes = [0u8;32];
    let mut i: usize = 0;
    while i < 32
        invariant
            slice@.len() == 32,
            i <= 32,
            forall|j: int| 0 <= j < i ==> hash@[j] == slice@[j],
        decreases 32 - i,
    {
        hash[i] = slice[i];
        i = i + 1;
    }
    hash
}

/// Whether two hashes are equal.
pub fn same_hash(left: &HashBytes, right: &HashBytes) -> (same: bool)
    ensures
        same == (left@ == right@),
{
    let mut i: usize = 0;
    while i < 32
        invariant
            i <= 32,
            forall|j: int| 0 <= j < i ==> left@[j] == right@[j],
        decreases 32 - i,
    {
        if left[i] != right[i] {
            return false;
        }
        i = i + 1;
    }
    assert(left@ =~= right@);
    true
}

/// `NodeCodec::hashed_null_node` of the trie layout: the hash of the encoded empty node, which is
/// the single byte zero.
#[verifier::external_body]
pub(crate) fn hashed_null_node() -> (hash: HashBytes)
    ensures
        hash@ == blake2_256(seq![0u8]),
{
    <LayoutV0<Blake2Hasher> as TrieLayout>::Codec::hashed_null_node().0
}

/// `Encode::encode` of a hash: its bytes, with nothing around them.
#[verifier::external_body]
pub(crate) fn encode_hash(hash: &HashBytes) -> (bytes: Vec<u8>)
    ensures
        bytes@ == hash@,
{
    H256(*hash).encode()
}

} // verus!
