//! Requests and responses of the state protocol.

use vstd::prelude::*;

verus! {

/// A key and its value.
pub struct StateEntry {
    pub key: Vec<u8>,
    pub value: Vec<u8>,
}

/// Consecutive entries of one trie.
pub struct KeyValueStateEntry {
    /// The root of the trie: empty for the top trie.
    pub state_root: Vec<u8>,
    /// The entries, in the order of the trie.
    pub entries: Vec<StateEntry>,
    /// Whether the entries reach the end of the trie.
    pub complete: bool,
}

/// A part of the state, as entries or as a proof.
pub struct StateResponse {
    /// Entries, trie by trie, where no proof was asked for.
    pub entries: Vec<KeyValueStateEntry>,
    /// An encoded compact proof, where one was asked for.
    pub proof: Vec<u8>,
}

/// Asks for the part of the state that starts behind given keys.
pub struct StateRequest {
    /// The encoded hash of the block whose state is asked for.
    pub block: Vec<u8>,
    /// The key to start behind in each trie, the top trie first.
    pub start: Vec<Vec<u8>>,
    /// Whether entries are asked for instead of a proof.
    pub no_proof: bool,
}

/// What a `KeyValueStateEntry` holds.
pub struct KeyValueStateEntryView {
    pub state_root: Seq<u8>,
    pub entries: Seq<(Seq<u8>, Seq<u8>)>,
    pub complete: bool,
}

/// What a `StateResponse` holds.
pub struct StateResponseView {
    pub entries: Seq<KeyValueStateEntryView>,
    pub proof_bytes: Seq<u8>,
}

/// Keys and values as sequences.
pub open spec fn entries_view(entries: Seq<StateEntry>) -> Seq<(Seq<u8>, Seq<u8>)> {
    Seq::new(entries.len(), |i: int| (entries[i].key@, entries[i].value@))
}

impl View for KeyValueStateEntry {
    type V = KeyValueStateEntryView;

    open spec fn view(&self) -> KeyValueStateEntryView {
        KeyValueStateEntryView {
            state_root: self.state_root@,
            entries: entries_view(self.entries@),
            complete: self.complete,
        }
    }
}

/// The tries of a response.
pub open spec fn levels_view(levels: Seq<KeyValueStateEntry>) -> Seq<KeyValueStateEntryView> {
    Seq::new(levels.len(), |i: int| levels[i]@)
}

impl View for StateResponse {
    type V = StateResponseView;

    open spec fn view(&self) -> StateResponseView {
        StateResponseView {
            entries: levels_view(self.entries@),
            proof_bytes: self.proof@,
        }
    }
}

} // verus!
