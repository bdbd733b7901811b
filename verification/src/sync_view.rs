//! What a state sync holds and how it changes, in mathematical terms.

use vstd::prelude::*;

use crate::level::LevelView;
use crate::nibbles::padded;
use crate::proof_db::proof_of;
use crate::schema::{KeyValueStateEntryView, StateResponseView};
use crate::storage::{levels_bytes, total_bytes, with_levels, TrieContents};
use crate::walk::{levels_valid, question, settle, AdvanceView, Entry, PauseView, WalkView};

verus! {

/// Whether a response is being imported, and how far that has come.
pub enum PhaseView {
    /// No response is being imported.
    Idle,
    /// The walk through a proof waits for an answer of the client's.
    Asking { nodes: Map<Seq<u8>, Seq<u8>>, batch: Seq<Entry> },
    /// The walk is over, and what it gathered is being written.
    Writing,
    /// A proof held something else where a node should be.
    Failed,
}

/// What a state sync holds.
pub struct SyncView {
    /// The hash of the target block.
    pub target_block: Seq<u8>,
    /// The root of the target block's state.
    pub target_root: Seq<u8>,
    /// The hash of the empty node.
    pub null_hash: Seq<u8>,
    /// Whether entries are asked for instead of proofs.
    pub skip_proof: bool,
    /// The key to go on behind in each trie, the top trie first.
    pub last_key: Seq<Seq<u8>>,
    /// The entries that have arrived without a proof, by the root of their trie.
    pub state: Map<Seq<u8>, TrieContents>,
    /// Whether all of the state has arrived.
    pub complete: bool,
    /// The number of bytes of the state that have arrived: of accepted proofs or, without proofs,
    /// of the keys and values that are kept. Entries that name child tries do not count, nor do
    /// those of a trie that is not taken again.
    pub imported_bytes: nat,
    /// The walk through the tries.
    pub levels: Seq<LevelView>,
    /// The import in progress.
    pub phase: PhaseView,
}

/// What one call leads to.
pub enum StepView {
    /// The response is no part of the state.
    BadResponse,
    /// More of the state is to come.
    Continue,
    /// The state has arrived, with these entries.
    Import(Map<Seq<u8>, TrieContents>),
    /// The client has to say whether it has what is at this path with this hash.
    Lookup(Seq<u8>, Seq<u8>),
    /// The client has to write this.
    Write(Seq<Entry>),
    /// The proof holds something else where a node should be.
    Malformed,
}

/// The keys that stay when entries arrive: the position in the top trie, where all that arrives
/// belongs to a child trie.
pub open spec fn kept_keys(
    last_key: Seq<Seq<u8>>,
    levels: Seq<KeyValueStateEntryView>,
) -> Seq<Seq<u8>> {
    if last_key.len() == 2 && levels[0].entries.len() == 0 {
        last_key.drop_last()
    } else {
        Seq::empty()
    }
}

/// The last key of each trie that does not end yet.
pub open spec fn open_keys(levels: Seq<KeyValueStateEntryView>) -> Seq<Seq<u8>>
    decreases levels.len(),
{
    if levels.len() == 0 {
        Seq::empty()
    } else {
        let keys = open_keys(levels.drop_last());
        let level = levels.last();
        if !level.complete && level.entries.len() > 0 {
            keys.push(level.entries.last().0)
        } else {
            keys
        }
    }
}

/// Whether each trie has ended.
pub open spec fn all_complete(levels: Seq<KeyValueStateEntryView>) -> bool {
    forall|i: int| 0 <= i < levels.len() ==> (#[trigger] levels[i]).complete
}

/// The place that the walk has reached in each trie, from the beginning of that trie.
pub open spec fn reached_keys(levels: Seq<LevelView>) -> Seq<Seq<u8>> {
    Seq::new(
        levels.len(),
        |i: int| padded(levels[i].prefix).skip(levels[i].initial_prefix_len as int),
    )
}

impl SyncView {
    /// A state sync that has just begun.
    pub open spec fn new(
        target_block: Seq<u8>,
        target_root: Seq<u8>,
        null_hash: Seq<u8>,
        skip_proof: bool,
    ) -> SyncView {
        SyncView {
            target_block,
            target_root,
            null_hash,
            skip_proof,
            last_key: Seq::empty(),
            state: Map::empty(),
            complete: false,
            imported_bytes: 0,
            levels: if skip_proof {
                Seq::empty()
            } else {
                seq![LevelView::new(true, Seq::empty(), target_root)]
            },
            phase: PhaseView::Idle,
        }
    }

    /// What every state sync keeps to.
    pub open spec fn valid(self) -> bool {
        &&& self.target_block.len() == 32
        &&& self.target_root.len() == 32
        &&& self.null_hash.len() == 32
        &&& self.imported_bytes <= u64::MAX
        &&& levels_valid(self.levels)
        &&& self.skip_proof ==> self.levels.len() == 0 && self.phase is Idle
        &&& !self.skip_proof ==> self.state == Map::<Seq<u8>, TrieContents>::empty()
        &&& !self.skip_proof && self.complete ==> self.levels.len() == 0
        &&& self.phase is Asking ==> self.levels.len() > 0 && question(
            self.levels.last(),
            self.null_hash,
        ) is Some
    }

    /// Whether `response` can be imported now: none is being imported yet, the number of bytes
    /// stays in range, and a response without entries does not come to a sync inside a child trie
    /// that has asked for entries.
    pub open spec fn accepts(self, response: StateResponseView) -> bool {
        &&& self.phase is Idle
        &&& if self.skip_proof {
            &&& self.imported_bytes + levels_bytes(self.state, response.entries) <= u64::MAX
            &&& self.last_key.len() == 2 && response.proof_bytes.len() > 0
                ==> response.entries.len() > 0
        } else {
            self.imported_bytes + response.proof_bytes.len() <= u64::MAX
        }
    }

    /// Whether `response` can be imported now, even if all of its keys and values are kept.
    pub open spec fn admits(self, response: StateResponseView) -> bool {
        &&& self.phase is Idle
        &&& if self.skip_proof {
            &&& self.imported_bytes + total_bytes(response.entries) <= u64::MAX
            &&& self.last_key.len() == 2 && response.proof_bytes.len() > 0
                ==> response.entries.len() > 0
        } else {
            self.imported_bytes + response.proof_bytes.len() <= u64::MAX
        }
    }

    /// The end of an import.
    pub open spec fn concluded(self, complete: bool) -> (SyncView, StepView) {
        if complete {
            (
                SyncView { complete: true, state: Map::empty(), ..self },
                StepView::Import(self.state),
            )
        } else {
            (self, StepView::Continue)
        }
    }

    /// The walk over, with `walk` where it stopped.
    pub open spec fn stopped(self, walk: WalkView) -> (SyncView, StepView) {
        (
            SyncView { levels: walk.levels, phase: PhaseView::Writing, ..self },
            StepView::Write(walk.batch),
        )
    }

    /// The walk given up, with `walk` where it failed.
    pub open spec fn failed(self, walk: WalkView) -> (SyncView, StepView) {
        (
            SyncView { levels: walk.levels, phase: PhaseView::Failed, ..self },
            StepView::Malformed,
        )
    }

    /// The walk from `walk` on, up to where it pauses.
    pub open spec fn walked(self, nodes: Map<Seq<u8>, Seq<u8>>, walk: WalkView) -> (
        SyncView,
        StepView,
    ) {
        let (paused, pause) = settle(walk, nodes, self.null_hash);
        match pause {
            PauseView::Ask => {
                let asked = question(paused.levels.last(), self.null_hash)->0;
                (
                    SyncView {
                        levels: paused.levels,
                        phase: PhaseView::Asking { nodes, batch: paused.batch },
                        ..self
                    },
                    StepView::Lookup(asked.0, asked.1),
                )
            },
            PauseView::Stop => self.stopped(paused),
            PauseView::Malformed => self.failed(paused),
        }
    }

    /// The import of entries.
    pub open spec fn import_entries(self, levels: Seq<KeyValueStateEntryView>) -> (
        SyncView,
        StepView,
    ) {
        (SyncView {
            last_key: kept_keys(self.last_key, levels) + open_keys(levels),
            state: with_levels(self.state, levels),
            imported_bytes: self.imported_bytes + levels_bytes(self.state, levels),
            ..self
        }).concluded(all_complete(levels))
    }

    /// The import of the proof that `bytes` holds.
    pub open spec fn import_proof(self, bytes: Seq<u8>) -> (SyncView, StepView) {
        match proof_of(bytes, self.target_root) {
            Some(nodes) => (SyncView {
                imported_bytes: self.imported_bytes + bytes.len(),
                ..self
            }).walked(nodes, WalkView { levels: self.levels, batch: Seq::empty() }),
            None => (self, StepView::BadResponse),
        }
    }

    /// The import of a response.
    pub open spec fn import(self, response: StateResponseView) -> (SyncView, StepView) {
        if response.entries.len() == 0 && response.proof_bytes.len() == 0 {
            (self, StepView::BadResponse)
        } else if self.skip_proof {
            self.import_entries(response.entries)
        } else if response.proof_bytes.len() == 0 {
            (self, StepView::BadResponse)
        } else {
            self.import_proof(response.proof_bytes)
        }
    }

    /// The import after the client has answered whether it has what was asked for.
    pub open spec fn resume(self, known: bool) -> (SyncView, StepView) {
        match self.phase {
            PhaseView::Asking { nodes, batch } => {
                let walk = WalkView { levels: self.levels, batch };
                match walk.advance(nodes, known) {
                    AdvanceView::Moved(next) => self.walked(nodes, next),
                    AdvanceView::Missing => self.stopped(walk),
                    AdvanceView::Malformed => self.failed(walk),
                }
            },
            _ => (self, StepView::Continue),
        }
    }

    /// The import after the client has written what was gathered.
    pub open spec fn written(self) -> (SyncView, StepView) {
        (SyncView {
            last_key: reached_keys(self.levels),
            phase: PhaseView::Idle,
            ..self
        }).concluded(self.levels.len() == 0)
    }

    /// The byte at which the next request starts.
    pub open spec fn cursor(self) -> u8 {
        if self.last_key.len() > 0 && self.last_key[0].len() > 0 {
            self.last_key[0][0]
        } else {
            0
        }
    }
}

} // verus!
