//! Keys of the top trie under which the roots of child tries are kept.

use sp_core::storage::well_known_keys;
use vstd::prelude::*;

verus! {

/// Whether `bytes` starts with all of `prefix`.
pub open spec fn starts_with(bytes: Seq<u8>, prefix: Seq<u8>) -> bool {
    prefix.is_prefix_of(bytes)
}

/// `:child_storage:`, in front of every child storage key.
pub open spec fn child_storage_key_prefix() -> Seq<u8> {
    seq![58u8, 99, 104, 105, 108, 100, 95, 115, 116, 111, 114, 97, 103, 101, 58]
}

/// `:child_storage:default:`, in front of every default child storage key.
pub open spec fn default_child_storage_key_prefix() -> Seq<u8> {
    child_storage_key_prefix() + seq![100u8, 101, 102, 97, 117, 108, 116, 58]
}

/// Whether a key of the top trie holds the root of a child trie.
pub open spec fn is_child_key(key: Seq<u8>) -> bool {
    starts_with(key, child_storage_key_prefix())
}

/// Whether a key of the top trie holds the root of a default child trie.
pub open spec fn is_default_child_key(key: Seq<u8>) -> bool {
    starts_with(key, default_child_storage_key_prefix())
}

/// `well_known_keys::is_child_storage_key`: whether the key starts with `:child_storage:`.
pub assume_specification[ well_known_keys::is_child_storage_key ](key: &[u8]) -> (child: bool)
    ensures
        child == is_child_key(key@),
;

/// `well_known_keys::is_default_child_storage_key`: whether the key starts with
/// `:child_storage:default:`.
pub assume_specification[ well_known_keys::is_default_child_storage_key ](key: &[u8]) -> (
    child: bool)
    ensures
        child == is_default_child_key(key@),
;

/// `well_known_keys::DEFAULT_CHILD_STORAGE_KEY_PREFIX`: the bytes of `:child_storage:default:`.
#[verifier::external_body]
pub(crate) fn default_prefix() -> (prefix: &'static [u8])
    ensures
        prefix@ == default_child_storage_key_prefix(),
{
    well_known_keys::DEFAULT_CHILD_STORAGE_KEY_PREFIX
}

} // verus!
