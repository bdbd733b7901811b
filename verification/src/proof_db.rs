//! Trie nodes that arrive in a compact proof.

use hash_db::HashDBRef;
use parity_scale_codec::Decode;
use sp_core::{Blake2Hasher, H256};
use sp_state_machine::{LayoutV0, MemoryDB};
use sp_trie::CompactProof;
use trie_db::NibbleVec;
use vstd::prelude::*;

use crate::hash::{blake2_256, HashBytes};

verus! {

/// A proof's nodes and values, each under its hash: `sp_state_machine`'s `MemoryDB`.
#[verifier::external_body]
pub struct ProofDb {
    inner: MemoryDB<Blake2Hasher>,
}

/// What a `ProofDb` holds: encoded nodes and values by their hashes.
pub uninterp spec fn proof_nodes(db: ProofDb) -> Map<Seq<u8>, Seq<u8>>;

/// The encoded nodes of the compact proof that `bytes` starts with, if it starts with one.
pub uninterp spec fn compact_proof(bytes: Seq<u8>) -> Option<Seq<Seq<u8>>>;

/// What the compact nodes `encoded` expand to, if they make up a proof of the trie with root
/// `root`.
pub uninterp spec fn expanded_proof(encoded: Seq<Seq<u8>>, root: Seq<u8>) -> Option<
    Map<Seq<u8>, Seq<u8>>,
>;

/// Whether everything in `nodes` stands under its own Blake2-256 hash.
pub open spec fn authentic(nodes: Map<Seq<u8>, Seq<u8>>) -> bool {
    forall|hash: Seq<u8>| #[trigger]
        nodes.contains_key(hash) ==> blake2_256(nodes[hash]) == hash
}

/// `CompactProof::decode`: the nodes of the compact proof at the front of `bytes`. The outcome
/// depends on the bytes alone; which bytes are a proof is left to the codec.
#[verifier::external_body]
fn decode_proof(bytes: &Vec<u8>) -> (nodes: Option<Vec<Vec<u8>>>)
    ensures
        compact_proof(bytes@) == match nodes {
            Some(nodes) => Some(nodes.deep_view()),
            None => None,
        },
{
    CompactProof::decode(&mut bytes.as_ref()).ok().map(|proof| proof.encoded_nodes)
}

/// `sp_trie::decode_compact`, into a `MemoryDB` made with `MemoryDB::new`, against an expected
/// root. Where it succeeds, the root is among the nodes, and each node stands under its hash, for
/// `MemoryDB::insert` is what puts it there. A `MemoryDB` made from no bytes also has those under
/// their hash. Which compact nodes are a proof of which root is left to the decoder.
#[verifier::external_body]
fn expand_proof(encoded: &Vec<Vec<u8>>, root: &HashBytes) -> (db: Option<ProofDb>)
    ensures
        expanded_proof(encoded.deep_view(), root@) == match db {
            Some(db) => Some(proof_nodes(db)),
            None => None,
        },
        db matches Some(db) ==> authentic(proof_nodes(db)) && proof_nodes(db).contains_key(root@),
{
    let mut inner = MemoryDB::<Blake2Hasher>::new(&[]);
    let nodes = encoded.iter().map(Vec::as_slice);
    let root = Some(&H256(*root));
    sp_trie::decode_compact::<LayoutV0<Blake2Hasher>, _, _>(&mut inner, nodes, root).ok()?;
    Some(ProofDb { inner })
}

/// What a proof of the trie with root `root` holds, if `bytes` starts with one.
pub open spec fn proof_of(bytes: Seq<u8>, root: Seq<u8>) -> Option<Map<Seq<u8>, Seq<u8>>> {
    match compact_proof(bytes) {
        Some(encoded) => expanded_proof(encoded, root),
        None => None,
    }
}

/// Reads a proof of the trie with root `root`.
pub fn read_proof(bytes: &Vec<u8>, root: &HashBytes) -> (db: Option<ProofDb>)
    ensures
        proof_of(bytes@, root@) == match db {
            Some(db) => Some(proof_nodes(db)),
            None => None,
        },
        db matches Some(db) ==> authentic(proof_nodes(db)) && proof_nodes(db).contains_key(root@),
{
    match decode_proof(bytes) {
        Some(encoded) => expand_proof(&encoded, root),
        None => None,
    }
}

impl ProofDb {
    /// `HashDBRef::get`: what is held under `hash`. `MemoryDB` goes by the hash alone, whatever the
    /// path.
    #[verifier::external_body]
    pub(crate) fn get(&self, hash: &HashBytes, path: &NibbleVec) -> (found: Option<Vec<u8>>)
        ensures
            match found {
                Some(value) => proof_nodes(*self).contains_key(hash@) && value@ == proof_nodes(
                    *self,
                )[hash@],
                None => !proof_nodes(*self).contains_key(hash@),
            },
    {
        HashDBRef::get(&self.inner, &H256(*hash), path.as_prefix())
    }
}

} // verus!
